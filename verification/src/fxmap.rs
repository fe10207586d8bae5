use std::collections::HashMap;

use rustc_hash::FxBuildHasher;
use vstd::prelude::*;

use crate::types::Txid;

verus! {

/// rustc-hash's deterministic hash builder.
#[verifier::external_type_specification]
#[verifier::external_body]
pub struct ExFxBuildHasher(rustc_hash::FxBuildHasher);

/// A hash map keyed by txid with rustc-hash's hasher (`FxHashMap<Txid, V>`).
pub type TxidMap<V> = HashMap<Txid, V, FxBuildHasher>;

/// `HashMap::default` on the Fx hasher: claims the new map is empty.
#[verifier::external_body]
pub(crate) fn txid_map_new<V>() -> (r: TxidMap<V>)
    ensures
        r@.dom() == Set::<Txid>::empty(),
{
    HashMap::default()
}

/// `HashMap::get`: claims the result is the value stored under `k`, or
/// `None` when `k` is absent. `Txid`'s `Eq` and `Hash` both look at all
/// 32 bytes, so lookups follow byte equality.
#[verifier::external_body]
pub(crate) fn txid_map_get<'a, V>(m: &'a TxidMap<V>, k: &Txid) -> (r: Option<&'a V>)
    ensures
        m@.contains_key(*k) ==> r == Some(&m@[*k]),
        !m@.contains_key(*k) ==> r is None,
{
    m.get(k)
}

/// `HashMap::insert`: claims the map afterwards maps `k` to `v` and is
/// otherwise unchanged, and that the previous value under `k` is returned.
#[verifier::external_body]
pub(crate) fn txid_map_insert<V>(m: &mut TxidMap<V>, k: Txid, v: V) -> (r: Option<V>)
    ensures
        final(m)@ == old(m)@.insert(k, v),
        old(m)@.contains_key(k) ==> r == Some(old(m)@[k]),
        !old(m)@.contains_key(k) ==> r is None,
{
    m.insert(k, v)
}

/// `HashMap::remove`: claims `k` is gone afterwards, nothing else changed,
/// and the removed value (if any) is returned.
#[verifier::external_body]
pub(crate) fn txid_map_remove<V>(m: &mut TxidMap<V>, k: &Txid) -> (r: Option<V>)
    ensures
        final(m)@ == old(m)@.remove(*k),
        old(m)@.contains_key(*k) ==> r == Some(old(m)@[*k]),
        !old(m)@.contains_key(*k) ==> r is None,
{
    m.remove(k)
}

/// `HashMap::len`: claims the result is the number of keys.
#[verifier::external_body]
pub(crate) fn txid_map_len<V>(m: &TxidMap<V>) -> (r: usize)
    ensures
        r == m@.len(),
{
    m.len()
}

/// A hash map keyed by outpoint `(txid, vout)` with rustc-hash's hasher.
pub type OutpointMap<V> = HashMap<(Txid, u32), V, FxBuildHasher>;

/// `HashMap::default` on the Fx hasher: claims the new map is empty.
#[verifier::external_body]
pub(crate) fn outpoint_map_new<V>() -> (r: OutpointMap<V>)
    ensures
        r@.dom() == Set::<(Txid, u32)>::empty(),
{
    HashMap::default()
}

/// `HashMap::insert`: claims `k` maps to `v` afterwards, nothing else
/// changed, and the previous value under `k` is returned. Outpoints
/// compare field by field (txid bytes and vout).
#[verifier::external_body]
pub(crate) fn outpoint_map_insert<V>(m: &mut OutpointMap<V>, k: (Txid, u32), v: V) -> (r: Option<V>)
    ensures
        final(m)@ == old(m)@.insert(k, v),
        old(m)@.contains_key(k) ==> r == Some(old(m)@[k]),
        !old(m)@.contains_key(k) ==> r is None,
{
    m.insert(k, v)
}

/// `HashMap::get`: claims the value under `k`, or `None` when absent.
#[verifier::external_body]
pub(crate) fn outpoint_map_get<'a, V>(m: &'a OutpointMap<V>, k: &(Txid, u32)) -> (r: Option<&'a V>)
    ensures
        m@.contains_key(*k) ==> r == Some(&m@[*k]),
        !m@.contains_key(*k) ==> r is None,
{
    m.get(k)
}

/// `HashMap::remove`: claims the value under `k` is handed out and `k` is
/// gone afterwards, nothing else changed.
#[verifier::external_body]
pub(crate) fn outpoint_map_remove<V>(m: &mut OutpointMap<V>, k: &(Txid, u32)) -> (r: Option<V>)
    ensures
        final(m)@ == old(m)@.remove(*k),
        old(m)@.contains_key(*k) ==> r == Some(old(m)@[*k]),
        !old(m)@.contains_key(*k) ==> r is None,
{
    m.remove(k)
}

/// `HashMap::is_empty`: claims whether the map has no key.
#[verifier::external_body]
pub(crate) fn outpoint_map_is_empty<V>(m: &OutpointMap<V>) -> (r: bool)
    ensures
        r == (m@.dom() == Set::<(Txid, u32)>::empty()),
{
    m.is_empty()
}

/// A hash map keyed by a slot or position (`usize`) with rustc-hash's
/// hasher.
pub type SlotMap<V> = HashMap<usize, V, FxBuildHasher>;

/// `HashMap::default` on the Fx hasher: claims the new map is empty.
#[verifier::external_body]
pub(crate) fn slot_map_new<V>() -> (r: SlotMap<V>)
    ensures
        r@.dom() == Set::<usize>::empty(),
{
    HashMap::default()
}

/// `HashMap::insert`: claims `k` maps to `v` afterwards, nothing else
/// changed, and the previous value under `k` is returned.
#[verifier::external_body]
pub(crate) fn slot_map_insert<V>(m: &mut SlotMap<V>, k: usize, v: V) -> (r: Option<V>)
    ensures
        final(m)@ == old(m)@.insert(k, v),
        old(m)@.contains_key(k) ==> r == Some(old(m)@[k]),
        !old(m)@.contains_key(k) ==> r is None,
{
    m.insert(k, v)
}

/// `HashMap::get`: claims the value under `k`, or `None` when absent.
#[verifier::external_body]
pub(crate) fn slot_map_get<'a, V>(m: &'a SlotMap<V>, k: &usize) -> (r: Option<&'a V>)
    ensures
        m@.contains_key(*k) ==> r == Some(&m@[*k]),
        !m@.contains_key(*k) ==> r is None,
{
    m.get(k)
}

} // verus!
