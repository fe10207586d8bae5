use std::collections::HashSet;
use std::hash::{Hash, Hasher};

use indexmap::IndexMap;
use rustc_hash::{FxBuildHasher, FxHasher};
use vstd::prelude::*;

use crate::tx::{Transaction, TxEntry};
use crate::types::{Txid, TxidPrefix};

verus! {

/// indexmap's insertion-ordered hash map.
#[verifier::external_type_specification]
#[verifier::external_body]
#[verifier::reject_recursive_types(K)]
#[verifier::reject_recursive_types(V)]
#[verifier::reject_recursive_types(S)]
pub struct ExIndexMap<K, V, S>(indexmap::IndexMap<K, V, S>);

/// Live transaction body and its mempool entry, kept together so one
/// prefix lookup returns everything readers need.
#[derive(Debug, Clone)]
pub struct TxRecord {
    pub tx: Transaction,
    pub entry: TxEntry,
}

/// The live-pool index: records by txid prefix, in dense storage order.
pub type RecordMap = IndexMap<TxidPrefix, TxRecord, FxBuildHasher>;

/// The set of prefixes whose transaction still misses a prevout.
pub type PrefixSet = HashSet<TxidPrefix, FxBuildHasher>;

/// What the record map holds, in storage order.
pub uninterp spec fn record_entries(m: RecordMap) -> Seq<(TxidPrefix, TxRecord)>;

/// What rustc-hash's `FxHasher` gives after hashing `position` as a `u64`
/// and then the txid's 32 bytes. The hasher is unseeded, so the value is
/// the same in every process on one target (its multiplier depends on the
/// pointer width).
pub uninterp spec fn position_hash(txid: Txid, position: u64) -> u64;

/// No key occurs twice.
pub open spec fn keys_distinct(s: Seq<(TxidPrefix, TxRecord)>) -> bool {
    forall|i: int, j: int| 0 <= i < j < s.len() ==> s[i].0 != s[j].0
}

/// `k` is a key of `s`.
pub open spec fn has_key(s: Seq<(TxidPrefix, TxRecord)>, k: TxidPrefix) -> bool {
    exists|i: int| 0 <= i < s.len() && (#[trigger] s[i]).0 == k
}

/// `s` after swap-removing index `i`: the last entry takes its place.
pub open spec fn swap_removed<A>(s: Seq<A>, i: int) -> Seq<A> {
    s.update(i, s.last()).drop_last()
}

/// `IndexMap::default`: claims the new map is empty.
#[verifier::external_body]
pub(crate) fn records_new() -> (r: RecordMap)
    ensures
        record_entries(r).len() == 0,
{
    IndexMap::default()
}

/// `IndexMap::len`: claims the entry count.
#[verifier::external_body]
pub(crate) fn records_len(m: &RecordMap) -> (r: usize)
    ensures
        r == record_entries(*m).len(),
{
    m.len()
}

/// `IndexMap::get_index_of`: claims the index of `k`'s entry, or `None`
/// when no entry has key `k`.
#[verifier::external_body]
pub(crate) fn records_index_of(m: &RecordMap, k: &TxidPrefix) -> (r: Option<usize>)
    ensures
        match r {
            Some(i) => i < record_entries(*m).len() && record_entries(*m)[i as int].0 == *k,
            None => !has_key(record_entries(*m), *k),
        },
{
    m.get_index_of(k)
}

/// `IndexMap::get_index`: claims the entry at index `i`, or `None` past
/// the end.
#[verifier::external_body]
pub(crate) fn records_at(m: &RecordMap, i: usize) -> (r: Option<(&TxidPrefix, &TxRecord)>)
    ensures
        i < record_entries(*m).len() ==> r is Some && *r.unwrap().0 == record_entries(*m)[i as int].0
            && *r.unwrap().1 == record_entries(*m)[i as int].1,
        i >= record_entries(*m).len() ==> r is None,
{
    m.get_index(i)
}

/// `IndexMap::insert` of a key that is not present: claims the entry is
/// appended last and nothing else moves.
#[verifier::external_body]
pub(crate) fn records_insert(m: &mut RecordMap, k: TxidPrefix, v: TxRecord) -> (r: Option<
    TxRecord,
>)
    requires
        !has_key(record_entries(*old(m)), k),
    ensures
        r is None,
        record_entries(*final(m)) == record_entries(*old(m)).push((k, v)),
{
    m.insert(k, v)
}

/// `IndexMap::swap_remove_full`: claims that when `k` is present at index
/// `i`, `(i, k, value)` is returned and the last entry is moved into slot
/// `i`; when absent, `None` and nothing changes.
#[verifier::external_body]
pub(crate) fn records_swap_remove(m: &mut RecordMap, k: &TxidPrefix) -> (r: Option<
    (usize, TxidPrefix, TxRecord),
>)
    ensures
        match r {
            Some((i, key, v)) => {
                &&& i < record_entries(*old(m)).len()
                &&& key == *k
                &&& record_entries(*old(m))[i as int] == (key, v)
                &&& record_entries(*final(m)) == swap_removed(record_entries(*old(m)), i as int)
            },
            None => {
                &&& !has_key(record_entries(*old(m)), *k)
                &&& record_entries(*final(m)) == record_entries(*old(m))
            },
        },
{
    m.swap_remove_full(k)
}

/// `IndexMut<usize>` on `IndexMap`: claims the reference is to the value
/// at index `i`, and that writing through it changes only that value.
#[verifier::external_body]
pub(crate) fn records_value_mut(m: &mut RecordMap, i: usize) -> (r: &mut TxRecord)
    requires
        i < record_entries(*old(m)).len(),
    ensures
        *r == record_entries(*old(m))[i as int].1,
        record_entries(*final(m)) == record_entries(*old(m)).update(
            i as int,
            (record_entries(*old(m))[i as int].0, *final(r)),
        ),
{
    &mut m[i]
}

/// `HashSet::default` with the Fx hasher: claims the set is empty.
#[verifier::external_body]
pub(crate) fn fx_set_new() -> (r: PrefixSet)
    ensures
        r@ == Set::<TxidPrefix>::empty(),
{
    HashSet::default()
}

/// `HashSet::insert`: claims `k` is in the set afterwards and nothing
/// else changed.
#[verifier::external_body]
pub(crate) fn fx_set_insert(s: &mut PrefixSet, k: TxidPrefix) -> (r: bool)
    ensures
        final(s)@ == old(s)@.insert(k),
        r == !old(s)@.contains(k),
{
    s.insert(k)
}

/// `HashSet::remove`: claims `k` is gone afterwards and nothing else
/// changed.
#[verifier::external_body]
pub(crate) fn fx_set_remove(s: &mut PrefixSet, k: &TxidPrefix) -> (r: bool)
    ensures
        final(s)@ == old(s)@.remove(*k),
        r == old(s)@.contains(*k),
{
    s.remove(k)
}

/// `HashSet::contains`: claims membership of `k`.
#[verifier::external_body]
pub(crate) fn fx_set_contains(s: &PrefixSet, k: &TxidPrefix) -> (r: bool)
    ensures
        r == s@.contains(*k),
{
    s.contains(k)
}

/// `HashSet::len`: claims the number of members.
#[verifier::external_body]
pub(crate) fn fx_set_len(s: &PrefixSet) -> (r: usize)
    ensures
        r == s@.len(),
{
    s.len()
}

/// `FxHasher` fed `position` as a `u64`, then the txid's 32 bytes.
#[verifier::external_body]
pub(crate) fn txid_position_hash(txid: &Txid, position: usize) -> (r: u64)
    ensures
        r == position_hash(*txid, position as u64),
{
    let mut hasher = FxHasher::default();
    (position as u64).hash(&mut hasher);
    txid.0.hash(&mut hasher);
    hasher.finish()
}

} // verus!
