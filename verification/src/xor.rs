use vstd::prelude::*;

verus! {

/// Length of the obfuscation key bitcoind stores in `blocks/xor.dat`.
pub const XOR_LEN: usize = 8;

/// The blk-file obfuscation key.
#[derive(Debug, Default, PartialEq, Eq, Clone, Copy)]
pub struct XORBytes(pub [u8; 8]);

impl XORBytes {
    /// `true` when every key byte is zero, i.e. decoding is the identity.
    pub fn is_identity(&self) -> (r: bool)
        ensures
            r == (forall|k: int| 0 <= k < 8 ==> self.0[k] == 0u8),
    {
        let mut k: usize = 0;
        while k < XOR_LEN
            invariant
                k <= 8,
                forall|j: int| 0 <= j < k ==> self.0[j] == 0u8,
            decreases 8 - k,
        {
            if self.0[k] != 0 {
                return false;
            }
            k += 1;
        }
        true
    }
}

/// Key phase of a position inside a blk file: which key byte applies next.
#[derive(Debug, PartialEq, Eq, Clone, Copy)]
pub struct XORIndex(usize);

impl Default for XORIndex {
    fn default() -> (r: Self)
        ensures
            r.spec_phase() == 0,
    {
        XORIndex(0)
    }
}

impl XORIndex {
    #[verifier::type_invariant]
    spec fn phase_in_key(self) -> bool {
        self.0 < 8
    }

    pub closed spec fn spec_phase(self) -> nat {
        self.0 as nat
    }

    /// The byte at `phase + i` of a buffer decoded starting at key phase `phase`.
    pub open spec fn decoded(input: Seq<u8>, key: [u8; 8], phase: nat, i: int) -> u8 {
        input[i] ^ key[((phase + i) % 8) as int]
    }

    /// A whole buffer decoded from key phase `phase`; an all-zero key
    /// leaves it as it is.
    pub open spec fn decode_seq(input: Seq<u8>, key: [u8; 8], phase: nat) -> Seq<u8> {
        if forall|k: int| 0 <= k < 8 ==> key[k] == 0u8 {
            input
        } else {
            Seq::new(input.len(), |i: int| Self::decoded(input, key, phase, i))
        }
    }

    /// Phase-aligned `XORIndex` for a buffer that conceptually starts
    /// at `offset` in the blk file.
    pub fn at_offset(offset: usize) -> (r: Self)
        ensures
            r.spec_phase() == offset % 8,
    {
        assert(offset & 7 == offset % 8) by (bit_vector);
        XORIndex(offset & (XOR_LEN - 1))
    }

    pub fn phase(self) -> (r: usize)
        ensures
            r == self.spec_phase(),
            r < 8,
    {
        proof {
            use_type_invariant(&self);
        }
        self.0
    }

    pub fn set_phase(&mut self, phase: usize)
        ensures
            final(self).spec_phase() == phase % 8,
    {
        assert(phase & 7 == phase % 8) by (bit_vector);
        self.0 = phase & (XOR_LEN - 1);
    }

    pub fn add_assign(&mut self, i: usize)
        requires
            old(self).spec_phase() + i <= usize::MAX,
        ensures
            final(self).spec_phase() == (old(self).spec_phase() + i) % 8,
    {
        let s = self.0 + i;
        assert(s & 7 == s % 8) by (bit_vector);
        self.0 = s & (XOR_LEN - 1);
    }
}

impl XORIndex {
    /// XOR-decode `bytes` in place, advancing the phase by its length.
    /// An identity key leaves the buffer untouched (the phase still
    /// advances).
    /// Aligned 8-byte runs are decoded a whole key at a time; only the
    /// head and tail straddling alignment go byte by byte.
    pub fn bytes<'a>(&mut self, bytes: &'a mut [u8], xor_bytes: XORBytes) -> (r: &'a mut [u8])
        ensures
            final(bytes)@ == final(r)@,
            r@.len() == old(bytes)@.len(),
            r@ == Self::decode_seq(old(bytes)@, xor_bytes.0, old(self).spec_phase()),
            final(self).spec_phase() == (old(self).spec_phase() + old(bytes)@.len()) % 8,
            (forall|k: int| 0 <= k < 8 ==> xor_bytes.0[k] == 0u8) ==> r@ == old(bytes)@,
            !(forall|k: int| 0 <= k < 8 ==> xor_bytes.0[k] == 0u8) ==> {
                &&& forall|i: int|
                    0 <= i < old(bytes)@.len() ==> #[trigger] r@[i] == Self::decoded(
                        old(bytes)@,
                        xor_bytes.0,
                        old(self).spec_phase(),
                        i,
                    )
            },
    {
        proof {
            use_type_invariant(&*self);
        }
        if xor_bytes.is_identity() {
            let p: usize = self.0;
            let n: usize = bytes.len();
            proof {
                vstd::arithmetic::div_mod::lemma_add_mod_noop(p as int, n as int, 8);
                vstd::arithmetic::div_mod::lemma_small_mod(p as nat, 8);
            }
            self.set_phase(p + n % XOR_LEN);
            proof {
                vstd::arithmetic::div_mod::lemma_small_mod((n % 8) as nat, 8);
            }
            return bytes;
        }
        let xb = xor_bytes.0;
        let p0: usize = self.0;
        let mut phase: usize = p0;
        let len = bytes.len();
        let ghost orig = bytes@;
        let mut i: usize = 0;
        while phase != 0 && i < len
            invariant
                len == bytes@.len(),
                orig.len() == len,
                i <= len,
                phase < 8,
                p0 == self.0,
                p0 < 8,
                phase == (self.0 + i) % 8,
                forall|j: int| 0 <= j < i ==> #[trigger] bytes@[j] == Self::decoded(orig, xb, self.0 as nat, j),
                forall|j: int| i <= j < len ==> #[trigger] bytes@[j] == orig[j],
            decreases len - i,
        {
            bytes[i] = bytes[i] ^ xb[phase];
            let np = phase + 1;
            assert(np & 7 == np % 8) by (bit_vector);
            phase = np & (XOR_LEN - 1);
            i += 1;
        }
        let rest = len - i;
        assert(rest & !7usize == rest - rest % 8) by (bit_vector);
        let body_len = rest & !(XOR_LEN - 1);
        let body_end = i + body_len;
        while i < body_end
            invariant
                len == bytes@.len(),
                orig.len() == len,
                i <= body_end <= len,
                (body_end - i) % 8 == 0,
                i < body_end ==> phase == 0,
                phase == (self.0 + i) % 8,
                forall|j: int| 0 <= j < i ==> #[trigger] bytes@[j] == Self::decoded(orig, xb, self.0 as nat, j),
                forall|j: int| i <= j < len ==> #[trigger] bytes@[j] == orig[j],
            decreases body_end - i,
        {
            let mut k: usize = 0;
            while k < XOR_LEN
                invariant
                    len == bytes@.len(),
                    orig.len() == len,
                    i + 8 <= body_end <= len,
                    k <= 8,
                    (self.0 + i) % 8 == 0,
                    forall|j: int| 0 <= j < i + k ==> #[trigger] bytes@[j] == Self::decoded(orig, xb, self.0 as nat, j),
                    forall|j: int| i + k <= j < len ==> #[trigger] bytes@[j] == orig[j],
                decreases 8 - k,
            {
                assert((self.0 + i + k) % 8 == k as int) by {
                    assert((self.0 + i) % 8 == 0);
                }
                bytes[i + k] = bytes[i + k] ^ xb[k];
                k += 1;
            }
            i += XOR_LEN;
        }
        while i < len
            invariant
                len == bytes@.len(),
                orig.len() == len,
                i <= len,
                phase < 8,
                phase == (self.0 + i) % 8,
                forall|j: int| 0 <= j < i ==> #[trigger] bytes@[j] == Self::decoded(orig, xb, self.0 as nat, j),
                forall|j: int| i <= j < len ==> #[trigger] bytes@[j] == orig[j],
            decreases len - i,
        {
            bytes[i] = bytes[i] ^ xb[phase];
            let np = phase + 1;
            assert(np & 7 == np % 8) by (bit_vector);
            phase = np & (XOR_LEN - 1);
            i += 1;
        }
        self.0 = phase;
        bytes
    }

    /// XOR-decode `buffer` as if it lived at `offset` in the blk file.
    pub fn decode_at(buffer: &mut [u8], offset: usize, xor_bytes: XORBytes)
        ensures
            final(buffer)@.len() == old(buffer)@.len(),
            (forall|k: int| 0 <= k < 8 ==> xor_bytes.0[k] == 0u8) ==> final(buffer)@ == old(buffer)@,
            !(forall|k: int| 0 <= k < 8 ==> xor_bytes.0[k] == 0u8) ==> forall|i: int|
                0 <= i < old(buffer)@.len() ==> #[trigger] final(buffer)@[i] == Self::decoded(
                    old(buffer)@,
                    xor_bytes.0,
                    offset as nat % 8,
                    i,
                ),
    {
        let mut index = Self::at_offset(offset);
        index.bytes(buffer, xor_bytes);
    }
}

/// Decoding is its own inverse: XOR-ing a decoded byte again with the
/// same key at the same phase gives the input byte back.
pub proof fn law_decode_twice_restores(input: Seq<u8>, key: [u8; 8], phase: nat, i: int)
    requires
        0 <= i < input.len(),
    ensures
        (XORIndex::decoded(input, key, phase, i) ^ key[((phase + i) % 8) as int]) == input[i],
{
    let b = input[i];
    let k = key[((phase + i) % 8) as int];
    assert((b ^ k) ^ k == b) by (bit_vector);
}

/// Decoding a buffer whole is decoding its first `k` bytes and then the
/// rest from the phase the first piece left off, which is also where the
/// whole decode leaves off: two `bytes` calls over the two halves of a
/// split buffer give what one call over the buffer gives.
pub proof fn law_decode_in_two(input: Seq<u8>, key: [u8; 8], phase: nat, k: int)
    requires
        0 <= k <= input.len(),
    ensures
        XORIndex::decode_seq(input, key, phase) == XORIndex::decode_seq(input.take(k), key, phase)
            + XORIndex::decode_seq(input.skip(k), key, ((phase + k) % 8) as nat),
        (((phase + k) % 8) + (input.len() - k)) % 8 == (phase + input.len()) % 8,
{
    assert((((phase + k) % 8) + (input.len() - k)) % 8 == (phase + input.len()) % 8) by (nonlinear_arith)
        requires
            phase >= 0,
            k >= 0,
            input.len() >= k,
    ;
    let whole = XORIndex::decode_seq(input, key, phase);
    let a = XORIndex::decode_seq(input.take(k), key, phase);
    let b = XORIndex::decode_seq(input.skip(k), key, ((phase + k) % 8) as nat);
    if !(forall|j: int| 0 <= j < 8 ==> key[j] == 0u8) {
        assert forall|i: int| 0 <= i < input.len() implies #[trigger] whole[i] == (a + b)[i] by {
            if i >= k {
                law_split_decoding(input, key, phase, k, i);
                assert(input.skip(k) =~= input.subrange(k, input.len() as int));
            }
        }
        assert(whole =~= a + b);
    } else {
        assert(input =~= input.take(k) + input.skip(k));
    }
}

/// Decoding a buffer in two pieces, the second starting at the phase the
/// first left off, gives the same bytes as decoding it whole.
pub proof fn law_split_decoding(input: Seq<u8>, key: [u8; 8], phase: nat, split: int, i: int)
    requires
        0 <= split <= i < input.len(),
    ensures
        XORIndex::decoded(input.subrange(split, input.len() as int), key, ((phase + split) % 8) as nat, i - split)
            == XORIndex::decoded(input, key, phase, i),
{
    assert(((((phase + split) % 8) as nat) + (i - split)) % 8 == (phase + i) % 8) by (nonlinear_arith)
        requires
            phase >= 0,
            split >= 0,
            i >= split,
    ;
}

} // verus!
