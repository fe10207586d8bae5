use vstd::prelude::*;

verus! {

/// A transaction id in internal byte order.
#[derive(Debug, Clone, Copy, Eq, Hash)]
pub struct Txid(pub [u8; 32]);

impl PartialEq for Txid {
    fn eq(&self, other: &Self) -> (r: bool) {
        let mut k: usize = 0;
        while k < 32
            invariant
                k <= 32,
                forall|j: int| 0 <= j < k ==> self.0[j] == other.0[j],
            decreases 32 - k,
        {
            if self.0[k] != other.0[k] {
                return false;
            }
            k += 1;
        }
        assert(self.0 =~= other.0);
        true
    }
}

impl vstd::std_specs::cmp::PartialEqSpecImpl for Txid {
    open spec fn obeys_eq_spec() -> bool {
        true
    }

    open spec fn eq_spec(&self, other: &Txid) -> bool {
        *self == *other
    }
}

/// The first 8 bytes of a txid as a little-endian integer: the key the
/// live pool is indexed by.
pub type TxidPrefix = u64;

/// Fee rate as an exact ratio: `fee` sats over `vsize` vbytes.
#[derive(Debug, Clone, Copy, PartialEq, Eq, Structural)]
pub struct FeeRate {
    pub fee: u64,
    pub vsize: u64,
}

pub open spec fn prefix_of(txid: Txid) -> u64 {
    (txid.0[0] as int + txid.0[1] as int * 0x100 + txid.0[2] as int * 0x10000 + txid.0[3] as int
        * 0x1000000 + txid.0[4] as int * 0x100000000 + txid.0[5] as int * 0x10000000000
        + txid.0[6] as int * 0x1000000000000 + txid.0[7] as int * 0x100000000000000) as u64
}

/// `a` sorts strictly before `b` in byte-lexicographic order, looking at
/// bytes from index `k` on.
pub open spec fn bytes_lt_from(a: [u8; 32], b: [u8; 32], k: int) -> bool
    decreases 32 - k,
{
    if k >= 32 {
        false
    } else if a[k] < b[k] {
        true
    } else if a[k] > b[k] {
        false
    } else {
        bytes_lt_from(a, b, k + 1)
    }
}

pub open spec fn txid_lt(a: Txid, b: Txid) -> bool {
    bytes_lt_from(a.0, b.0, 0)
}

/// `a` is a strictly higher rate than `b`.
pub open spec fn rate_gt(a: FeeRate, b: FeeRate) -> bool {
    a.fee * b.vsize > b.fee * a.vsize
}

/// `a` and `b` are the same rate.
pub open spec fn rate_eq(a: FeeRate, b: FeeRate) -> bool {
    a.fee * b.vsize == b.fee * a.vsize
}

pub proof fn lemma_mul_u64_fits(a: u64, b: u64)
    ensures
        a * b <= u128::MAX,
        0 <= a * b,
{
    assert(a * b <= 0xffff_ffff_ffff_ffff * 0xffff_ffff_ffff_ffff) by (nonlinear_arith)
        requires
            a <= 0xffff_ffff_ffff_ffffu64,
            b <= 0xffff_ffff_ffff_ffffu64,
    ;
    assert(0 <= a * b) by (nonlinear_arith)
        requires
            0 <= a,
            0 <= b,
    ;
}

impl Txid {
    /// Prefix used to index the live pool.
    pub fn prefix(&self) -> (r: TxidPrefix)
        ensures
            r == prefix_of(*self),
    {
        let b = &self.0;
        (b[0] as u64) + (b[1] as u64) * 0x100 + (b[2] as u64) * 0x10000 + (b[3] as u64)
            * 0x1000000 + (b[4] as u64) * 0x100000000 + (b[5] as u64) * 0x10000000000 + (b[6] as u64)
            * 0x1000000000000 + (b[7] as u64) * 0x100000000000000
    }
}

impl FeeRate {
    pub fn new(fee: u64, vsize: u64) -> (r: Self)
        ensures
            r.fee == fee,
            r.vsize == vsize,
    {
        FeeRate { fee, vsize }
    }

    /// `true` iff `self` is a strictly higher rate than `other`.
    pub fn gt(&self, other: &FeeRate) -> (r: bool)
        ensures
            r == rate_gt(*self, *other),
    {
        proof {
            lemma_mul_u64_fits(self.fee, other.vsize);
            lemma_mul_u64_fits(other.fee, self.vsize);
        }
        (self.fee as u128) * (other.vsize as u128) > (other.fee as u128) * (self.vsize as u128)
    }

    /// `true` iff both are the same rate.
    pub fn same_rate(&self, other: &FeeRate) -> (r: bool)
        ensures
            r == rate_eq(*self, *other),
    {
        proof {
            lemma_mul_u64_fits(self.fee, other.vsize);
            lemma_mul_u64_fits(other.fee, self.vsize);
        }
        (self.fee as u128) * (other.vsize as u128) == (other.fee as u128) * (self.vsize as u128)
    }
}

} // verus!
