use std::collections::BTreeMap;

use vstd::prelude::*;

verus! {

broadcast use {vstd::std_specs::btree::group_btree_axioms, vstd::laws_cmp::group_laws_cmp};

/// What a directory entry's file name says about it.
#[derive(Debug, Clone, Copy, PartialEq, Eq, Structural)]
pub enum BlkName {
    /// Not of the form `blk*.dat`: skipped silently.
    Unrelated,
    /// `blkNNNNN.dat` with the given index.
    Index(u16),
    /// Looks like a blk file but the index does not parse.
    Malformed,
}

/// `b` is an ASCII decimal digit.
pub open spec fn is_digit(b: u8) -> bool {
    48 <= b <= 57
}

/// Decimal value of a run of ASCII digits.
pub open spec fn digits_value(s: Seq<u8>) -> int
    decreases s.len(),
{
    if s.len() == 0 {
        0
    } else {
        digits_value(s.drop_last()) * 10 + (s.last() - 48)
    }
}

/// The value `u16::from_str` gives `s`: an optional `+`, then at least
/// one ASCII digit, with a value that fits in 16 bits.
pub open spec fn strip_plus(s: Seq<u8>) -> Seq<u8> {
    if s.len() > 0 && s[0] == 43 {
        s.drop_first()
    } else {
        s
    }
}

pub open spec fn all_digits(d: Seq<u8>) -> bool {
    forall|i: int| 0 <= i < d.len() ==> is_digit(#[trigger] d[i])
}

pub open spec fn parse_u16(s: Seq<u8>) -> Option<u16> {
    let d = strip_plus(s);
    if d.len() > 0 && all_digits(d) && digits_value(d) <= u16::MAX {
        Some(digits_value(d) as u16)
    } else {
        None
    }
}

/// `blk` in ASCII.
pub open spec fn blk_prefix() -> Seq<u8> {
    seq![98u8, 108, 107]
}

/// `.dat` in ASCII.
pub open spec fn dat_suffix() -> Seq<u8> {
    seq![46u8, 100, 97, 116]
}

/// Classification of a file name: strip the `blk` prefix, then the `.dat`
/// suffix, then parse what is left as a `u16`.
pub open spec fn spec_blk_name(name: Seq<u8>) -> BlkName {
    if name.len() >= 7 && name.take(3) == blk_prefix() && name.skip(name.len() - 4) == dat_suffix() {
        match parse_u16(name.subrange(3, name.len() - 4)) {
            Some(i) => BlkName::Index(i),
            None => BlkName::Malformed,
        }
    } else {
        BlkName::Unrelated
    }
}

fn parse_u16_bytes(s: &[u8], start: usize, end: usize) -> (r: Option<u16>)
    requires
        start <= end <= s@.len(),
    ensures
        r == parse_u16(s@.subrange(start as int, end as int)),
{
    let ghost full = s@.subrange(start as int, end as int);
    let mut i = start;
    if i < end && s[i] == 43 {
        i += 1;
    }
    let ghost d = s@.subrange(i as int, end as int);
    assert(d == strip_plus(full));
    if i == end {
        return None;
    }
    let mut value: u32 = 0;
    let mut k = i;
    while k < end
        invariant
            i <= k <= end <= s@.len(),
            d == s@.subrange(i as int, end as int),
            d == strip_plus(full),
            full == s@.subrange(start as int, end as int),
            forall|j: int| i <= j < k ==> is_digit(#[trigger] s@[j]),
            value == digits_value(s@.subrange(i as int, k as int)),
            value <= u16::MAX,
        decreases end - k,
    {
        let b = s[k];
        if b < 48 || b > 57 {
            assert(d[k - i] == b);
            assert(!is_digit(d[k - i]));
            assert(!all_digits(d));
            return None;
        }
        assert(s@.subrange(i as int, k + 1).drop_last() == s@.subrange(i as int, k as int));
        let next = value * 10 + (b - 48) as u32;
        if next > 65535 {
            proof {
                if all_digits(d) {
                    lemma_digits_value_grows(d, (k + 1 - i) as nat);
                    assert(d.take((k + 1 - i) as int) == s@.subrange(i as int, k + 1));
                }
            }
            return None;
        }
        value = next;
        k += 1;
    }
    assert(s@.subrange(i as int, k as int) == d);
    Some(value as u16)
}

/// Once a prefix of a digit run exceeds a bound, so does the whole run.
proof fn lemma_digits_value_grows(d: Seq<u8>, n: nat)
    requires
        n <= d.len(),
        forall|i: int| 0 <= i < d.len() ==> is_digit(#[trigger] d[i]),
    ensures
        digits_value(d) >= digits_value(d.take(n as int)),
    decreases d.len() - n,
{
    if n < d.len() {
        lemma_digits_value_grows(d, n + 1);
        lemma_digits_value_nonneg(d.take(n as int));
        assert(d.take((n + 1) as int).drop_last() == d.take(n as int));
        assert(d.take((n + 1) as int).last() == d[n as int]);
    } else {
        assert(d.take(n as int) == d);
    }
}

proof fn lemma_digits_value_nonneg(d: Seq<u8>)
    requires
        forall|i: int| 0 <= i < d.len() ==> is_digit(#[trigger] d[i]),
    ensures
        digits_value(d) >= 0,
    decreases d.len(),
{
    if d.len() > 0 {
        lemma_digits_value_nonneg(d.drop_last());
    }
}

/// Classify a directory entry by its file name (as UTF-8 bytes).
pub fn classify_blk_file_name(name: &[u8]) -> (r: BlkName)
    ensures
        r == spec_blk_name(name@),
{
    let len = name.len();
    if len < 7 {
        return BlkName::Unrelated;
    }
    let prefix_ok = name[0] == 98 && name[1] == 108 && name[2] == 107;
    let suffix_ok = name[len - 4] == 46 && name[len - 3] == 100 && name[len - 2] == 97
        && name[len - 1] == 116;
    proof {
        assert(prefix_ok <==> name@.take(3) == blk_prefix()) by {
            if prefix_ok {
                assert(name@.take(3) =~= blk_prefix());
            }
            if name@.take(3) == blk_prefix() {
                assert(name@.take(3)[0] == name@[0]);
                assert(name@.take(3)[1] == name@[1]);
                assert(name@.take(3)[2] == name@[2]);
            }
        }
        assert(suffix_ok <==> name@.skip(len - 4) == dat_suffix()) by {
            if suffix_ok {
                assert(name@.skip(len - 4) =~= dat_suffix());
            }
            if name@.skip(len - 4) == dat_suffix() {
                assert(name@.skip(len - 4)[0] == name@[len - 4]);
                assert(name@.skip(len - 4)[1] == name@[len - 3]);
                assert(name@.skip(len - 4)[2] == name@[len - 2]);
                assert(name@.skip(len - 4)[3] == name@[len - 1]);
            }
        }
    }
    if !(prefix_ok && suffix_ok) {
        return BlkName::Unrelated;
    }
    match parse_u16_bytes(name, 3, len - 4) {
        Some(i) => BlkName::Index(i),
        None => BlkName::Malformed,
    }
}


/// One directory entry: its file name as UTF-8 bytes (`None` when the name
/// is not valid UTF-8), whether it is a regular file, and its path.
pub struct BlkDirEntry<P> {
    pub name: Option<Vec<u8>>,
    pub is_file: bool,
    pub path: P,
}

/// Why a blocks directory cannot be indexed. `position` is the offending
/// entry's position in the listing.
#[derive(Debug, Clone, Copy, PartialEq, Eq, Structural)]
pub enum BlkScanError {
    /// The name looks like a blk file but its index does not parse.
    MalformedName { position: usize },
    /// A `blkNNNNN.dat` entry that is not a regular file.
    NotAFile { position: usize },
}

/// Effect of the `n`-th entry on the scan: skip, add, or fail.
pub open spec fn entry_name<P>(e: BlkDirEntry<P>) -> BlkName {
    match e.name {
        Some(name) => spec_blk_name(name@),
        None => BlkName::Unrelated,
    }
}

/// Result of indexing the first `n` entries: the first entry that looks
/// like a blk file but has a malformed index or is not a regular file is
/// the error; otherwise every blk file maps its index to its path (a later
/// entry with the same index replaces an earlier one).
pub open spec fn scan_entries<P>(entries: Seq<BlkDirEntry<P>>, n: int) -> Result<Map<u16, P>, BlkScanError>
    decreases n,
{
    if n <= 0 {
        Ok(Map::empty())
    } else {
        match scan_entries(entries, n - 1) {
            Err(e) => Err(e),
            Ok(m) => match entry_name(entries[n - 1]) {
                BlkName::Unrelated => Ok(m),
                BlkName::Malformed => Err(BlkScanError::MalformedName { position: (n - 1) as usize }),
                BlkName::Index(i) => if entries[n - 1].is_file {
                    Ok(m.insert(i, entries[n - 1].path))
                } else {
                    Err(BlkScanError::NotAFile { position: (n - 1) as usize })
                },
            },
        }
    }
}

proof fn lemma_scan_error_sticks<P>(entries: Seq<BlkDirEntry<P>>, k: int, n: int)
    requires
        0 <= k <= n,
        scan_entries(entries, k) is Err,
    ensures
        scan_entries(entries, n) == scan_entries(entries, k),
    decreases n - k,
{
    if n > k {
        lemma_scan_error_sticks(entries, k, n - 1);
    }
}

/// Every `blkNNNNN.dat` file of a blocks directory, by index.
pub struct BlkIndexToBlkPath<P> {
    paths: BTreeMap<u16, P>,
}

impl<P> BlkIndexToBlkPath<P> {
    pub closed spec fn view(&self) -> Map<u16, P> {
        self.paths@
    }

    /// Index a directory listing. Unrelated entries (`xor.dat`, `rev*.dat`,
    /// `index/`, ...) are skipped silently; anything that looks like a blk
    /// file but fails to parse or is not a regular file is an error, since
    /// silently dropping one would leave an undetectable hole in the chain.
    pub fn from_entries(entries: Vec<BlkDirEntry<P>>) -> (r: Result<Self, BlkScanError>)
        ensures
            match scan_entries(entries@, entries@.len() as int) {
                Ok(m) => r matches Ok(s) && s.view() == m,
                Err(e) => r == Err::<Self, BlkScanError>(e),
            },
    {
        let ghost all = entries@;
        let mut paths: BTreeMap<u16, P> = BTreeMap::new();
        let mut position: usize = 0;
        let n = entries.len();
        for e in it: entries.into_iter()
            invariant
                all == it.seq(),
                position == it.index(),
                position <= all.len(),
                n == all.len(),
                scan_entries(all, position as int) == Ok::<Map<u16, P>, BlkScanError>(paths@),
        {
            assert(all[position as int] == e);
            assert(position < n);
            let name = match &e.name {
                Some(name) => classify_blk_file_name(name.as_slice()),
                None => BlkName::Unrelated,
            };
            match name {
                BlkName::Unrelated => {},
                BlkName::Malformed => {
                    proof {
                        lemma_scan_error_sticks(all, position + 1, all.len() as int);
                    }
                    return Err(BlkScanError::MalformedName { position });
                },
                BlkName::Index(i) => {
                    if !e.is_file {
                        proof {
                            lemma_scan_error_sticks(all, position + 1, all.len() as int);
                        }
                        return Err(BlkScanError::NotAFile { position });
                    }
                    paths.insert(i, e.path);
                },
            }
            position += 1;
        }
        Ok(BlkIndexToBlkPath { paths })
    }

    pub fn len(&self) -> (r: usize)
        ensures
            r == self.view().len(),
    {
        self.paths.len()
    }

    pub fn get(&self, index: u16) -> (r: Option<&P>)
        ensures
            match r {
                Some(p) => self.view().contains_key(index) && self.view()[index] == *p,
                None => !self.view().contains_key(index),
            },
    {
        self.paths.get(&index)
    }

    /// The underlying index-to-path map.
    pub fn into_map(self) -> (r: BTreeMap<u16, P>)
        ensures
            r@ == self.view(),
    {
        self.paths
    }
}

} // verus!
