use vstd::prelude::*;

use crate::types::{prefix_of, FeeRate, Txid, TxidPrefix};

verus! {

/// A transaction output: locking script bytes and value in sats.
#[derive(Debug)]
pub struct TxOut {
    pub script_pubkey: Vec<u8>,
    pub value: u64,
}

impl View for TxOut {
    type V = (Seq<u8>, u64);

    open spec fn view(&self) -> (Seq<u8>, u64) {
        (self.script_pubkey@, self.value)
    }
}

impl Clone for TxOut {
    fn clone(&self) -> (r: Self)
        ensures
            r@ == self@,
    {
        let script = self.script_pubkey.clone();
        assert(script@ =~= self.script_pubkey@);
        TxOut { script_pubkey: script, value: self.value }
    }
}

/// A transaction input: the outpoint it spends and, once known, the
/// output it spends (`prevout`).
#[derive(Debug)]
pub struct TxIn {
    pub txid: Txid,
    pub vout: u32,
    pub prevout: Option<TxOut>,
    pub is_coinbase: bool,
    pub sequence: u32,
}

/// A decoded transaction as the mempool keeps it.
#[derive(Debug)]
pub struct Transaction {
    pub txid: Txid,
    pub version: i32,
    pub lock_time: u32,
    pub input: Vec<TxIn>,
    pub output: Vec<TxOut>,
    pub total_size: u64,
    pub weight: u64,
    pub total_sigop_cost: u64,
    pub fee: u64,
}

/// Mempool bookkeeping for a live transaction, as reported by the node.
#[derive(Debug, Clone)]
pub struct TxEntry {
    pub txid: Txid,
    pub fee: u64,
    pub vsize: u64,
    pub weight: u64,
    pub first_seen: u64,
    pub depends: Vec<Txid>,
    pub rbf: bool,
}

/// Why a transaction left the live pool.
#[derive(Debug, Clone, Copy)]
pub enum TxRemoval {
    /// Another transaction spent one of its outpoints.
    Replaced { by: Txid },
    /// Mined, expired or evicted: nothing new spends its inputs.
    Vanished,
}

/// `a` and `b` are the same input (prevouts compared by content).
pub open spec fn same_in(a: TxIn, b: TxIn) -> bool {
    &&& a.txid == b.txid
    &&& a.vout == b.vout
    &&& a.is_coinbase == b.is_coinbase
    &&& a.sequence == b.sequence
    &&& (a.prevout is Some <==> b.prevout is Some)
    &&& a.prevout is Some ==> a.prevout.unwrap()@ == b.prevout.unwrap()@
}

/// `a` and `b` are the same transaction (inputs and outputs compared by
/// content).
pub open spec fn same_tx(a: Transaction, b: Transaction) -> bool {
    &&& a.txid == b.txid
    &&& a.version == b.version
    &&& a.lock_time == b.lock_time
    &&& a.total_size == b.total_size
    &&& a.weight == b.weight
    &&& a.total_sigop_cost == b.total_sigop_cost
    &&& a.fee == b.fee
    &&& a.input@.len() == b.input@.len()
    &&& forall|i: int| 0 <= i < a.input@.len() ==> same_in(#[trigger] a.input@[i], b.input@[i])
    &&& a.output@.len() == b.output@.len()
    &&& forall|i: int| 0 <= i < a.output@.len() ==> (#[trigger] a.output@[i])@ == b.output@[i]@
}

impl Clone for TxIn {
    fn clone(&self) -> (r: Self)
        ensures
            same_in(r, *self),
    {
        let prevout = match &self.prevout {
            Some(o) => Some(o.clone()),
            None => None,
        };
        TxIn {
            txid: self.txid,
            vout: self.vout,
            prevout,
            is_coinbase: self.is_coinbase,
            sequence: self.sequence,
        }
    }
}

impl Clone for Transaction {
    fn clone(&self) -> (r: Self)
        ensures
            same_tx(r, *self),
    {
        let mut input: Vec<TxIn> = Vec::new();
        let mut k: usize = 0;
        while k < self.input.len()
            invariant
                k <= self.input@.len(),
                input@.len() == k,
                forall|i: int| 0 <= i < k ==> same_in(#[trigger] input@[i], self.input@[i]),
            decreases self.input.len() - k,
        {
            input.push(self.input[k].clone());
            k += 1;
        }
        let mut output: Vec<TxOut> = Vec::new();
        let mut k: usize = 0;
        while k < self.output.len()
            invariant
                k <= self.output@.len(),
                output@.len() == k,
                forall|i: int| 0 <= i < k ==> (#[trigger] output@[i])@ == self.output@[i]@,
            decreases self.output.len() - k,
        {
            output.push(self.output[k].clone());
            k += 1;
        }
        Transaction {
            txid: self.txid,
            version: self.version,
            lock_time: self.lock_time,
            input,
            output,
            total_size: self.total_size,
            weight: self.weight,
            total_sigop_cost: self.total_sigop_cost,
            fee: self.fee,
        }
    }
}

/// The inputs of `inputs` that still lack a prevout.
pub open spec fn has_unresolved(inputs: Seq<TxIn>) -> bool {
    exists|i: int| 0 <= i < inputs.len() && (#[trigger] inputs[i]).prevout is None
}

/// What the node reports for a mempool entry.
#[derive(Debug, Clone)]
pub struct MempoolEntryInfo {
    pub txid: Txid,
    pub vsize: u64,
    pub weight: u64,
    pub fee: u64,
    pub first_seen: u64,
    pub depends: Vec<Txid>,
}

impl TxEntry {
    /// The entry for `info`, with the given vsize and replaceability.
    pub fn new(info: &MempoolEntryInfo, vsize: u64, rbf: bool) -> (r: TxEntry)
        ensures
            r.txid == info.txid,
            r.fee == info.fee,
            r.vsize == vsize,
            r.weight == info.weight,
            r.first_seen == info.first_seen,
            r.depends@ == info.depends@,
            r.rbf == rbf,
    {
        let mut depends: Vec<Txid> = Vec::new();
        let mut k: usize = 0;
        while k < info.depends.len()
            invariant
                k <= info.depends@.len(),
                depends@ == info.depends@.take(k as int),
            decreases info.depends.len() - k,
        {
            depends.push(info.depends[k]);
            assert(info.depends@.take(k + 1) =~= info.depends@.take(k as int).push(info.depends@[k as int]));
            k += 1;
        }
        assert(info.depends@.take(info.depends@.len() as int) =~= info.depends@);
        TxEntry {
            txid: info.txid,
            fee: info.fee,
            vsize,
            weight: info.weight,
            first_seen: info.first_seen,
            depends,
            rbf,
        }
    }

    pub fn txid_prefix(&self) -> (r: TxidPrefix)
        ensures
            r == prefix_of(self.txid),
    {
        self.txid.prefix()
    }

    /// The entry's own fee over its own vsize.
    pub fn fee_rate(&self) -> (r: FeeRate)
        ensures
            r == (FeeRate { fee: self.fee, vsize: self.vsize }),
    {
        FeeRate { fee: self.fee, vsize: self.vsize }
    }
}

impl Transaction {
    /// Whether some input still has no prevout.
    pub fn has_unresolved_input(&self) -> (r: bool)
        ensures
            r == has_unresolved(self.input@),
    {
        let mut k: usize = 0;
        while k < self.input.len()
            invariant
                k <= self.input.len(),
                forall|j: int| 0 <= j < k ==> (#[trigger] self.input@[j]).prevout is Some,
            decreases self.input.len() - k,
        {
            if self.input[k].prevout.is_none() {
                return true;
            }
            k += 1;
        }
        false
    }
}

} // verus!
