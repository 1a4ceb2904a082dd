//! The mempool: pending non-coinbase transactions, kept sorted by fee
//! rate (fee per encoded byte, highest first), with duplicate and
//! conflict eviction.

use vstd::prelude::*;
use crate::hashes::Hash256;
use crate::types::{Transaction, Block, OutPoint, spec_txid, tx_encodable, tx_view_eq, clone_tx,
    tx_body_enc, spec_is_coinbase};
use crate::chain::Chain;

verus! {

/// One pending transaction with its fee and encoded size.
pub struct MempoolEntry {
    pub txid: Hash256,
    pub tx: Transaction,
    pub fee: u64,
    pub size: usize,
}

/// Fee-rate order: `a` pays at least as much per byte as `b`, compared
/// exactly by cross multiplication.
pub open spec fn rate_ge(fa: u64, sa: usize, fb: u64, sb: usize) -> bool {
    fa * sb >= fb * sa
}

/// Fee-rate order is transitive over positive sizes.
proof fn lemma_rate_trans(fa: u64, sa: usize, fb: u64, sb: usize, fc: u64, sc: usize)
    requires
        sa >= 1,
        sb >= 1,
        sc >= 1,
        rate_ge(fa, sa, fb, sb),
        rate_ge(fb, sb, fc, sc),
    ensures
        rate_ge(fa, sa, fc, sc),
{
    assert(fa * sc >= fc * sa) by (nonlinear_arith)
        requires
            sa >= 1,
            sb >= 1,
            sc >= 1,
            fa * sb >= fb * sa,
            fb * sc >= fc * sb,
    ;
}

/// The canonical encoding of a transaction is never empty.
proof fn lemma_tx_size_pos(tx: Transaction)
    ensures
        tx_body_enc(tx).len() >= 20,
{
    crate::encoding::lemma_le_bytes_n_len(tx.version as nat, 4);
    crate::encoding::lemma_le_bytes_n_len(tx.inputs@.len() as nat, 4);
    crate::encoding::lemma_le_bytes_n_len(tx.outputs@.len() as nat, 4);
    crate::encoding::lemma_le_bytes_n_len(tx.lock_time as nat, 8);
}

/// The fee the pool records for a transaction: the unspent amounts its
/// inputs resolve to, minus the (saturated) output total, clamped into
/// a `u64` and never below zero.
pub open spec fn spec_mempool_fee(utxo: Map<OutPoint, crate::utxo::UtxoEntry>, tx: Transaction)
    -> u64 {
    let ins = crate::chain::spec_inputs_sum(utxo, tx.inputs@);
    let outs = crate::types::spec_total_output(tx);
    if ins > outs {
        if ins - outs > u64::MAX {
            u64::MAX
        } else {
            (ins - outs) as u64
        }
    } else {
        0u64
    }
}

/// The new entry list holds the old one with one entry for `tx`, at fee
/// `fee` and the canonical size, inserted at position `i`.
pub open spec fn entry_inserted(
    old_entries: Seq<MempoolEntry>,
    new_entries: Seq<MempoolEntry>,
    i: int,
    tx: Transaction,
    fee: u64,
) -> bool {
    &&& 0 <= i <= old_entries.len()
    &&& new_entries.len() == old_entries.len() + 1
    &&& new_entries[i].txid == spec_txid(tx)
    &&& new_entries[i].tx == tx
    &&& new_entries[i].fee == fee
    &&& new_entries[i].size == tx_body_enc(tx).len()
    &&& (forall|q: int| 0 <= q < i ==> #[trigger] new_entries[q] == old_entries[q])
    &&& (forall|q: int|
        i < q < new_entries.len() ==> #[trigger] new_entries[q] == old_entries[q - 1])
}

/// Pending transactions in fee-rate order.
pub struct Mempool {
    pub entries: Vec<MempoolEntry>,
    pub max_size: usize,
}

impl Mempool {
    /// Well-formed: entries sorted by fee rate descending, txids
    /// distinct and consistent, sizes positive.
    pub open spec fn wf(&self) -> bool {
        &&& (forall|i: int, j: int|
            0 <= i < j < self.entries@.len() ==> rate_ge(
                (#[trigger] self.entries@[i]).fee,
                self.entries@[i].size,
                (#[trigger] self.entries@[j]).fee,
                self.entries@[j].size,
            ))
        &&& (forall|i: int, j: int|
            0 <= i < j < self.entries@.len() ==> (#[trigger] self.entries@[i]).txid != (
            #[trigger] self.entries@[j]).txid)
        &&& (forall|i: int|
            0 <= i < self.entries@.len() ==> {
                &&& (#[trigger] self.entries@[i]).size >= 1
                &&& self.entries@[i].txid == spec_txid(self.entries@[i].tx)
                &&& tx_encodable(self.entries@[i].tx)
            })
    }

    /// Whether a txid is already pending.
    pub open spec fn has_txid(&self, id: Hash256) -> bool {
        exists|i: int| 0 <= i < self.entries@.len() && (#[trigger] self.entries@[i]).txid == id
    }

    /// An empty pool with the given capacity.
    pub fn new(max_size: usize) -> (m: Mempool)
        ensures
            m.wf(),
            m.entries@.len() == 0,
            m.max_size == max_size,
    {
        Mempool { entries: Vec::new(), max_size }
    }

    /// Number of pending transactions.
    pub fn len(&self) -> (n: usize)
        ensures
            n == self.entries@.len(),
    {
        self.entries.len()
    }

    /// Whether nothing is pending.
    pub fn is_empty(&self) -> (b: bool)
        ensures
            b == (self.entries@.len() == 0),
    {
        self.entries.len() == 0
    }

    /// Whether a transaction with this txid is pending.
    pub fn contains_txid(&self, id: &Hash256) -> (b: bool)
        ensures
            b == self.has_txid(*id),
    {
        let n = self.entries.len();
        let mut i: usize = 0;
        while i < n
            invariant
                i <= n,
                n == self.entries@.len(),
                forall|j: int| 0 <= j < i ==> (#[trigger] self.entries@[j]).txid != *id,
            decreases n - i,
        {
            if self.entries[i].txid == *id {
                return true;
            }
            i = i + 1;
        }
        false
    }

    /// The pending transaction with a given txid, if any.
    pub fn get_by_txid(&self, id: &Hash256) -> (r: Option<&Transaction>)
        requires
            self.wf(),
        ensures
            match r {
                Some(tx) => exists|i: int|
                    0 <= i < self.entries@.len() && (#[trigger] self.entries@[i]).txid == *id
                        && *tx == self.entries@[i].tx,
                None => !self.has_txid(*id),
            },
    {
        let n = self.entries.len();
        let mut i: usize = 0;
        while i < n
            invariant
                i <= n,
                n == self.entries@.len(),
                forall|j: int| 0 <= j < i ==> (#[trigger] self.entries@[j]).txid != *id,
            decreases n - i,
        {
            if self.entries[i].txid == *id {
                return Some(&self.entries[i].tx);
            }
            i = i + 1;
        }
        None
    }

    /// Add a pre-validated transaction with a known fee. Returns false,
    /// leaving the pool unchanged, on a duplicate txid or a full pool.
    #[verifier::rlimit(50)]
    pub fn add_with_fee(&mut self, tx: Transaction, fee: u64) -> (r: bool)
        requires
            old(self).wf(),
            tx_encodable(tx),
        ensures
            final(self).wf(),
            final(self).max_size == old(self).max_size,
            !r ==> *final(self) == *old(self),
            !r <==> (old(self).has_txid(spec_txid(tx)) || old(self).entries@.len() >= old(
                self,
            ).max_size),
            r ==> final(self).has_txid(spec_txid(tx)),
            r ==> final(self).entries@.len() == old(self).entries@.len() + 1,
            // The stored entry carries exactly the given fee and the
            // canonical encoded size; everything else is kept in place.
            r ==> exists|i: int|
                entry_inserted(old(self).entries@, final(self).entries@, i, tx, fee),
    {
        let txid = tx.hash();
        if self.contains_txid(&txid) {
            return false;
        }
        if self.entries.len() >= self.max_size {
            return false;
        }
        let size = tx.size();
        proof {
            lemma_tx_size_pos(tx);
        }
        let entry = MempoolEntry { txid, tx, fee, size };
        // Find the first position whose rate is below the new entry's.
        let n = self.entries.len();
        let mut idx: usize = 0;
        while idx < n
            invariant_except_break
                idx <= n,
            invariant
                n == self.entries@.len(),
                old(self).wf(),
                *self == *old(self),
                forall|j: int|
                    0 <= j < idx ==> rate_ge(
                        (#[trigger] self.entries@[j]).fee,
                        self.entries@[j].size,
                        fee,
                        size,
                    ),
            ensures
                idx <= n,
                idx < n ==> !rate_ge(
                    self.entries@[idx as int].fee,
                    self.entries@[idx as int].size,
                    fee,
                    size,
                ),
            decreases n - idx,
        {
            let e = &self.entries[idx];
            // Exact rational comparison by cross multiplication.
            proof {
                assert((e.fee as int) * (size as int)
                    < 0x1_0000_0000_0000_0000_0000_0000_0000_0000) by (nonlinear_arith)
                    requires
                        e.fee <= 0xFFFF_FFFF_FFFF_FFFFu64,
                        size <= 0xFFFF_FFFF_FFFF_FFFFu64,
                ;
                assert((fee as int) * (e.size as int)
                    < 0x1_0000_0000_0000_0000_0000_0000_0000_0000) by (nonlinear_arith)
                    requires
                        fee <= 0xFFFF_FFFF_FFFF_FFFFu64,
                        e.size <= 0xFFFF_FFFF_FFFF_FFFFu64,
                ;
            }
            let lhs: u128 = (e.fee as u128) * (size as u128);
            let rhs: u128 = (fee as u128) * (e.size as u128);
            if lhs < rhs {
                break ;
            }
            idx = idx + 1;
        }
        let ghost oldes = self.entries@;
        self.entries.insert(idx, entry);
        proof {
            let es = self.entries@;
            assert forall|a: int, b: int| 0 <= a < b < es.len() implies rate_ge(
                (#[trigger] es[a]).fee,
                es[a].size,
                (#[trigger] es[b]).fee,
                es[b].size,
            ) by {
                let ia = idx as int;
                if a < ia && b == ia {
                } else if a == ia && b > ia {
                    assert(es[b] == oldes[b - 1]);
                    if b - 1 > ia {
                        assert(!rate_ge(oldes[ia].fee, oldes[ia].size, fee, size));
                        assert(rate_ge(fee, size, oldes[ia].fee, oldes[ia].size));
                        lemma_rate_trans(
                            fee,
                            size,
                            oldes[ia].fee,
                            oldes[ia].size,
                            oldes[b - 1].fee,
                            oldes[b - 1].size,
                        );
                    } else {
                        assert(!rate_ge(oldes[ia].fee, oldes[ia].size, fee, size));
                    }
                } else if a < ia && b > ia {
                    assert(es[a] == oldes[a] && es[b] == oldes[b - 1]);
                    if b - 1 == a {
                        lemma_rate_trans(
                            oldes[a].fee,
                            oldes[a].size,
                            fee,
                            size,
                            fee,
                            size,
                        );
                    }
                } else if a > ia {
                    assert(es[a] == oldes[a - 1] && es[b] == oldes[b - 1]);
                } else if b < ia {
                    assert(es[a] == oldes[a] && es[b] == oldes[b]);
                }
            }
            assert forall|a: int, b: int| 0 <= a < b < es.len() implies (#[trigger] es[a]).txid
                != (#[trigger] es[b]).txid by {
                let ia = idx as int;
                if a == ia {
                    if b > ia {
                        assert(es[b] == oldes[b - 1]);
                    }
                } else if b == ia {
                    assert(es[a] == oldes[a]);
                } else {
                    if a > ia {
                        assert(es[a] == oldes[a - 1]);
                    } else {
                        assert(es[a] == oldes[a]);
                    }
                    if b > ia {
                        assert(es[b] == oldes[b - 1]);
                    } else {
                        assert(es[b] == oldes[b]);
                    }
                }
            }
            assert(es[idx as int].txid == spec_txid(tx));
            assert(entry_inserted(oldes, es, idx as int, tx, fee));
        }
        true
    }

    /// Add a transaction with no recorded fee.
    pub fn add(&mut self, tx: Transaction) -> (r: bool)
        requires
            old(self).wf(),
            tx_encodable(tx),
        ensures
            final(self).wf(),
            final(self).max_size == old(self).max_size,
            !r <==> (old(self).has_txid(spec_txid(tx)) || old(self).entries@.len() >= old(
                self,
            ).max_size),
            !r ==> *final(self) == *old(self),
            r ==> final(self).has_txid(spec_txid(tx)),
            r ==> exists|i: int|
                entry_inserted(old(self).entries@, final(self).entries@, i, tx, 0u64),
    {
        self.add_with_fee(tx, 0)
    }

    /// Validate a transaction against the chain's active UTXO set at
    /// the next height, compute its fee, and admit it.
    pub fn validate_and_add(&mut self, tx: Transaction, chain: &Chain) -> (r: Result<
        Hash256,
        String,
    >)
        requires
            old(self).wf(),
            chain.wf(),
            tx_encodable(tx),
        ensures
            final(self).wf(),
            final(self).max_size == old(self).max_size,
            // Admission is owed exactly when the transaction is new,
            // the pool has room, and chain validation at the next
            // height passes (a coinbase never does).
            r is Ok <==> {
                &&& !old(self).has_txid(spec_txid(tx))
                &&& old(self).entries@.len() < old(self).max_size
                &&& !spec_is_coinbase(tx)
                &&& crate::chain::spec_tx_valid(chain.utxo_set@, tx, (chain.height + 1) as u64)
            },
            r matches Ok(id) ==> id == spec_txid(tx),
            r is Ok ==> final(self).has_txid(spec_txid(tx)),
            // The stored entry records the resolvable-input fee.
            r is Ok ==> exists|i: int|
                entry_inserted(
                    old(self).entries@,
                    final(self).entries@,
                    i,
                    tx,
                    spec_mempool_fee(chain.utxo_set@, tx),
                ),
            r is Err ==> *final(self) == *old(self),
    {
        let txid = tx.hash();
        if self.contains_txid(&txid) {
            let m: &str = "duplicate transaction";
            return Err(m.to_owned());
        }
        if self.entries.len() >= self.max_size {
            let m: &str = "mempool full";
            return Err(m.to_owned());
        }
        match chain.validate_transaction_for_mempool(&tx) {
            Ok(_) => {},
            Err(_) => {
                let m: &str = "transaction rejected";
                return Err(m.to_owned());
            },
        }
        // Fee: unspent inputs minus outputs, saturating low.
        let mut input_sum: u128 = 0;
        let n = tx.inputs.len();
        let mut i: usize = 0;
        while i < n
            invariant
                i <= n,
                n == tx.inputs@.len(),
                chain.wf(),
                input_sum <= i * 0xFFFF_FFFF_FFFF_FFFFu128,
                input_sum == crate::chain::spec_inputs_sum(
                    chain.utxo_set@,
                    tx.inputs@.subrange(0, i as int),
                ),
            decreases n - i,
        {
            proof {
                let pre = tx.inputs@.subrange(0, i + 1);
                assert(pre.drop_last() =~= tx.inputs@.subrange(0, i as int));
                assert(pre.last() == tx.inputs@[i as int]);
                assert((i + 1) * 0xFFFF_FFFF_FFFF_FFFFu128 == i * 0xFFFF_FFFF_FFFF_FFFFu128
                    + 0xFFFF_FFFF_FFFF_FFFFu128) by (nonlinear_arith);
                assert((i + 1) * 0xFFFF_FFFF_FFFF_FFFFu128
                    < 0x1_0000_0000_0000_0000_0000_0000_0000_0000) by (nonlinear_arith)
                    requires
                        i + 1 <= 0x1_0000_0000_0000_0000,
                ;
            }
            match chain.utxo_set.get(&tx.inputs[i].previous_output) {
                Some(e) => {
                    input_sum = input_sum + (e.output.amount as u128);
                },
                None => {},
            }
            i = i + 1;
        }
        proof {
            assert(tx.inputs@.subrange(0, n as int) =~= tx.inputs@);
        }
        let output_total = tx.total_output();
        let fee: u64 = if input_sum > output_total as u128 {
            let diff = input_sum - output_total as u128;
            if diff > u64::MAX as u128 {
                u64::MAX
            } else {
                diff as u64
            }
        } else {
            0
        };
        proof {
            assert(fee == spec_mempool_fee(chain.utxo_set@, tx));
        }
        let ghost pool_before = self.entries@;
        let added = self.add_with_fee(tx, fee);
        proof {
            assert(added);
            let w = choose|i: int| entry_inserted(pool_before, self.entries@, i, tx, fee);
            assert(entry_inserted(
                pool_before,
                self.entries@,
                w,
                tx,
                spec_mempool_fee(chain.utxo_set@, tx),
            ));
        }
        Ok(txid)
    }

    /// Remove every entry confirmed by a block, and every entry whose
    /// inputs conflict with an outpoint the block consumed.
    /// Remove every entry confirmed by a block, and every entry whose
    /// inputs conflict with an outpoint the block consumed.
    #[verifier::rlimit(50)]
    pub fn remove_confirmed(&mut self, block: &Block)
        requires
            old(self).wf(),
            crate::types::block_encodable(*block),
        ensures
            final(self).wf(),
            final(self).max_size == old(self).max_size,
            final(self).entries@.len() <= old(self).entries@.len(),
            // Kept entries are old entries, in their old order.
            subseq_of(final(self).entries@, old(self).entries@),
            // Nothing kept was confirmed by the block or spends what it
            // consumed.
            forall|p: int|
                0 <= p < final(self).entries@.len() ==> !entry_conflicts(
                    #[trigger] final(self).entries@[p],
                    *block,
                ),
            // Entries sharing nothing with the block are retained.
            forall|a: int|
                0 <= a < old(self).entries@.len() && !entry_conflicts(
                    #[trigger] old(self).entries@[a],
                    *block,
                ) ==> final(self).entries@.contains(old(self).entries@[a]),
    {
        // Collect the block's txids and the outpoints it consumed.
        let mut txids: Vec<Hash256> = Vec::new();
        let nb = block.transactions.len();
        let mut t: usize = 0;
        while t < nb
            invariant
                t <= nb,
                nb == block.transactions@.len(),
                crate::types::block_encodable(*block),
                txids@.len() == t,
                forall|j: int|
                    0 <= j < t ==> #[trigger] txids@[j] == spec_txid(block.transactions@[j]),
            decreases nb - t,
        {
            let id = block.transactions[t].hash();
            txids.push(id);
            t = t + 1;
        }
        let mut spent: Vec<OutPoint> = Vec::new();
        let mut t2: usize = 0;
        while t2 < nb
            invariant
                t2 <= nb,
                nb == block.transactions@.len(),
                crate::types::block_encodable(*block),
                spent@ == spent_ops(block.transactions@.subrange(0, t2 as int)),
            decreases nb - t2,
        {
            let tx = &block.transactions[t2];
            let ni = tx.inputs.len();
            let ghost base = spent@;
            let mut k: usize = 0;
            while k < ni
                invariant
                    k <= ni,
                    t2 < nb,
                    nb == block.transactions@.len(),
                    tx == &block.transactions@[t2 as int],
                    ni == tx.inputs@.len(),
                    spent@ == base + tx_ops(block.transactions@[t2 as int]).subrange(0, k as int),
                decreases ni - k,
            {
                spent.push(tx.inputs[k].previous_output);
                proof {
                    assert(spent@ =~= base + tx_ops(block.transactions@[t2 as int]).subrange(
                        0,
                        k + 1,
                    ));
                }
                k = k + 1;
            }
            proof {
                let pre = block.transactions@.subrange(0, t2 + 1);
                assert(pre.drop_last() =~= block.transactions@.subrange(0, t2 as int));
                assert(pre.last() == block.transactions@[t2 as int]);
                assert(tx_ops(block.transactions@[t2 as int]).subrange(
                    0,
                    ni as int,
                ) =~= tx_ops(block.transactions@[t2 as int]));
                assert(spent@ =~= spent_ops(pre));
            }
            t2 = t2 + 1;
        }
        proof {
            assert(block.transactions@.subrange(0, nb as int) =~= block.transactions@);
        }
        // Repeatedly drop the first conflicting entry until none is left.
        let ghost oldes = old(self).entries@;
        proof {
            lemma_subseq_refl(oldes);
            assert forall|a: int|
                0 <= a < oldes.len() && !entry_conflicts(
                    #[trigger] oldes[a],
                    *block,
                ) implies self.entries@.contains(oldes[a]) by {
                assert(self.entries@[a] == oldes[a]);
            }
        }
        loop
            invariant
                self.max_size == old(self).max_size,
                old(self).wf(),
                subseq_of(self.entries@, oldes),
                nb == block.transactions@.len(),
                txids@.len() == nb,
                forall|j: int|
                    0 <= j < nb ==> #[trigger] txids@[j] == spec_txid(block.transactions@[j]),
                spent@ == spent_ops(block.transactions@),
                forall|a: int|
                    0 <= a < oldes.len() && !entry_conflicts(#[trigger] oldes[a], *block)
                        ==> self.entries@.contains(oldes[a]),
            ensures
                subseq_of(self.entries@, oldes),
                forall|p: int|
                    0 <= p < self.entries@.len() ==> !entry_conflicts(
                        #[trigger] self.entries@[p],
                        *block,
                    ),
                forall|a: int|
                    0 <= a < oldes.len() && !entry_conflicts(#[trigger] oldes[a], *block)
                        ==> self.entries@.contains(oldes[a]),
            decreases self.entries@.len(),
        {
            let mut found: usize = self.entries.len();
            let n = self.entries.len();
            let mut i: usize = 0;
            while i < n
                invariant_except_break
                    i <= n,
                    found == n,
                invariant
                    n == self.entries@.len(),
                    forall|p: int|
                        0 <= p < i ==> !entry_conflicts(#[trigger] self.entries@[p], *block),
                    nb == block.transactions@.len(),
                    txids@.len() == nb,
                    forall|j: int|
                        0 <= j < nb ==> #[trigger] txids@[j] == spec_txid(
                            block.transactions@[j],
                        ),
                    spent@ == spent_ops(block.transactions@),
                ensures
                    found <= n,
                    n == self.entries@.len(),
                    found < n ==> entry_conflicts(self.entries@[found as int], *block),
                    found == n ==> forall|p: int|
                        0 <= p < n ==> !entry_conflicts(#[trigger] self.entries@[p], *block),
                decreases n - i,
            {
                if entry_conflicts_exec(&self.entries[i], block, &txids, &spent) {
                    found = i;
                    break ;
                }
                i = i + 1;
            }
            if found == n {
                break ;
            }
            let ghost before = self.entries@;
            let _ = self.entries.remove(found);
            proof {
                lemma_subseq_remove(before, found as int);
                lemma_subseq_trans(self.entries@, before, oldes);
                // Removing a conflicting entry keeps every
                // non-conflicting one.
                assert forall|a: int|
                    0 <= a < oldes.len() && !entry_conflicts(
                        #[trigger] oldes[a],
                        *block,
                    ) implies self.entries@.contains(oldes[a]) by {
                    let x = oldes[a];
                    assert(before.contains(x));
                    let ix = choose|ix: int| 0 <= ix < before.len() && before[ix] == x;
                    assert(entry_conflicts(before[found as int], *block));
                    assert(ix != found);
                    if ix < found {
                        assert(self.entries@[ix] == x);
                    } else {
                        assert(self.entries@[ix - 1] == x);
                    }
                }
            }
        }
        proof {
            lemma_entries_facts_subseq(self.entries@, oldes);
        }
    }

    /// Snapshot the pending transactions in fee-rate order, highest
    /// first; the order is total over the stored entries.
    pub fn get_pending(&self) -> (r: Vec<Transaction>)
        requires
            self.wf(),
        ensures
            r@.len() == self.entries@.len(),
            forall|i: int| 0 <= i < r@.len() ==> tx_view_eq(#[trigger] r@[i], self.entries@[i].tx),
            forall|i: int, j: int|
                0 <= i < j < self.entries@.len() ==> rate_ge(
                    (#[trigger] self.entries@[i]).fee,
                    self.entries@[i].size,
                    (#[trigger] self.entries@[j]).fee,
                    self.entries@[j].size,
                ),
    {
        let n = self.entries.len();
        let mut out: Vec<Transaction> = Vec::new();
        let mut i: usize = 0;
        while i < n
            invariant
                i <= n,
                n == self.entries@.len(),
                out@.len() == i,
                forall|j: int|
                    0 <= j < i ==> tx_view_eq(#[trigger] out@[j], self.entries@[j].tx),
            decreases n - i,
        {
            out.push(clone_tx(&self.entries[i].tx));
            i = i + 1;
        }
        out
    }
}


/// Whether a mempool entry is confirmed by a block or spends an
/// outpoint the block consumed.
pub open spec fn entry_conflicts(e: MempoolEntry, b: Block) -> bool {
    ||| exists|t: int|
        0 <= t < b.transactions@.len() && e.txid == spec_txid(#[trigger] b.transactions@[t])
    ||| exists|i: int, t: int, k: int|
        0 <= i < e.tx.inputs@.len() && 0 <= t < b.transactions@.len() && 0 <= k
            < b.transactions@[t].inputs@.len() && (#[trigger] e.tx.inputs@[i]).previous_output == (
        #[trigger] b.transactions@[t].inputs@[k]).previous_output
}

/// Decide `entry_conflicts` from precomputed txids and spent outpoints.
fn entry_conflicts_exec(
    e: &MempoolEntry,
    block: &Block,
    txids: &Vec<Hash256>,
    spent: &Vec<OutPoint>,
) -> (r: bool)
    requires
        txids@.len() == block.transactions@.len(),
        forall|j: int|
            0 <= j < txids@.len() ==> #[trigger] txids@[j] == spec_txid(block.transactions@[j]),
        spent@ == spent_ops(block.transactions@),
    ensures
        r == entry_conflicts(*e, *block),
{
    let na = txids.len();
    let mut a: usize = 0;
    while a < na
        invariant
            a <= na,
            na == txids@.len(),
            txids@.len() == block.transactions@.len(),
            forall|j: int|
                0 <= j < txids@.len() ==> #[trigger] txids@[j] == spec_txid(
                    block.transactions@[j],
                ),
            forall|j: int| 0 <= j < a ==> #[trigger] txids@[j] != e.txid,
        decreases na - a,
    {
        if txids[a] == e.txid {
            proof {
                assert(e.txid == spec_txid(block.transactions@[a as int]));
            }
            return true;
        }
        a = a + 1;
    }
    let ns = spent.len();
    let ne = e.tx.inputs.len();
    let mut b: usize = 0;
    while b < ne
        invariant
            b <= ne,
            ne == e.tx.inputs@.len(),
            ns == spent@.len(),
            na == txids@.len(),
            forall|j: int| 0 <= j < na ==> #[trigger] txids@[j] != e.txid,
            forall|j: int|
                0 <= j < txids@.len() ==> #[trigger] txids@[j] == spec_txid(
                    block.transactions@[j],
                ),
            spent@ == spent_ops(block.transactions@),
            forall|bi: int, j: int|
                0 <= bi < b && 0 <= j < ns ==> (#[trigger] e.tx.inputs@[bi]).previous_output != (
                #[trigger] spent@[j]),
        decreases ne - b,
    {
        let mut c: usize = 0;
        while c < ns
            invariant
                c <= ns,
                b < ne,
                ne == e.tx.inputs@.len(),
                ns == spent@.len(),
                spent@ == spent_ops(block.transactions@),
                forall|j: int|
                    0 <= j < c ==> (#[trigger] spent@[j]) != e.tx.inputs@[b as int].previous_output,
            decreases ns - c,
        {
            if spent[c] == e.tx.inputs[b].previous_output {
                proof {
                    lemma_spent_ops_member(block.transactions@, c as int);
                }
                return true;
            }
            c = c + 1;
        }
        b = b + 1;
    }
    proof {
        if entry_conflicts(*e, *block) {
            if exists|t: int|
                0 <= t < block.transactions@.len() && e.txid == spec_txid(
                    #[trigger] block.transactions@[t],
                ) {
                let t = choose|t: int|
                    0 <= t < block.transactions@.len() && e.txid == spec_txid(
                        #[trigger] block.transactions@[t],
                    );
                assert(txids@[t] == e.txid);
                assert(false);
            } else {
                let (i, t, k): (int, int, int) = choose|i: int, t: int, k: int|
                    0 <= i < e.tx.inputs@.len() && 0 <= t < block.transactions@.len() && 0 <= k
                        < block.transactions@[t].inputs@.len() && (
                    #[trigger] e.tx.inputs@[i]).previous_output == (
                    #[trigger] block.transactions@[t].inputs@[k]).previous_output;
                lemma_spent_ops_contains(block.transactions@, t, k);
                let j = choose|j: int|
                    0 <= j < spent@.len() && spent@[j] == block.transactions@[t].inputs@[
                        k].previous_output;
                assert(e.tx.inputs@[i].previous_output == spent@[j]);
                assert(false);
            }
        }
    }
    false
}


/// The outpoints a transaction's inputs consume.
pub open spec fn tx_ops(tx: Transaction) -> Seq<OutPoint> {
    Seq::new(tx.inputs@.len(), |k: int| tx.inputs@[k].previous_output)
}

/// All outpoints consumed by a list of transactions, in order.
pub open spec fn spent_ops(txs: Seq<Transaction>) -> Seq<OutPoint>
    decreases txs.len(),
{
    if txs.len() == 0 {
        Seq::empty()
    } else {
        spent_ops(txs.drop_last()) + tx_ops(txs.last())
    }
}

/// Every collected outpoint comes from some transaction's input.
proof fn lemma_spent_ops_member(txs: Seq<Transaction>, j: int)
    requires
        0 <= j < spent_ops(txs).len(),
    ensures
        exists|t: int, k: int|
            0 <= t < txs.len() && 0 <= k < txs[t].inputs@.len() && spent_ops(txs)[j] == (
            #[trigger] txs[t].inputs@[k]).previous_output,
    decreases txs.len(),
{
    let pre = spent_ops(txs.drop_last());
    if j < pre.len() {
        lemma_spent_ops_member(txs.drop_last(), j);
        let (t, k): (int, int) = choose|t: int, k: int|
            0 <= t < txs.drop_last().len() && 0 <= k < txs.drop_last()[t].inputs@.len() && pre[j]
                == (#[trigger] txs.drop_last()[t].inputs@[k]).previous_output;
        assert(txs[t] == txs.drop_last()[t]);
        assert(0 <= t < txs.len() && 0 <= k < txs[t].inputs@.len() && spent_ops(txs)[j] == txs[
            t].inputs@[k].previous_output);
    } else {
        let t = txs.len() - 1;
        let k = j - pre.len();
        assert(spent_ops(txs)[j] == tx_ops(txs.last())[k]);
        assert(0 <= t < txs.len() && 0 <= k < txs[t].inputs@.len() && spent_ops(txs)[j] == txs[
            t].inputs@[k].previous_output);
    }
}

/// Every transaction input's outpoint was collected.
proof fn lemma_spent_ops_contains(txs: Seq<Transaction>, t: int, k: int)
    requires
        0 <= t < txs.len(),
        0 <= k < txs[t].inputs@.len(),
    ensures
        spent_ops(txs).contains(txs[t].inputs@[k].previous_output),
    decreases txs.len(),
{
    let pre = spent_ops(txs.drop_last());
    if t < txs.len() - 1 {
        lemma_spent_ops_contains(txs.drop_last(), t, k);
        let j = choose|j: int|
            0 <= j < pre.len() && pre[j] == txs.drop_last()[t].inputs@[k].previous_output;
        assert(spent_ops(txs)[j] == txs[t].inputs@[k].previous_output);
    } else {
        assert(spent_ops(txs)[pre.len() + k] == tx_ops(txs.last())[k]);
        assert(tx_ops(txs.last())[k] == txs[t].inputs@[k].previous_output);
    }
}

/// A monotone index mapping witnessing that `a` lists some of `b`'s
/// entries in order.
pub open spec fn is_subseq_map(f: Seq<int>, a: Seq<MempoolEntry>, b: Seq<MempoolEntry>) -> bool {
    &&& f.len() == a.len()
    &&& (forall|p: int| 0 <= p < f.len() ==> 0 <= #[trigger] f[p] < b.len() && a[p] == b[f[p]])
    &&& (forall|p: int, q: int| 0 <= p < q < f.len() ==> f[p] < f[q])
}

/// `a` is a subsequence of `b`.
pub open spec fn subseq_of(a: Seq<MempoolEntry>, b: Seq<MempoolEntry>) -> bool {
    exists|f: Seq<int>| is_subseq_map(f, a, b)
}

proof fn lemma_subseq_refl(a: Seq<MempoolEntry>)
    ensures
        subseq_of(a, a),
{
    let f = Seq::new(a.len(), |i: int| i);
    assert(is_subseq_map(f, a, a));
}

proof fn lemma_subseq_remove(a: Seq<MempoolEntry>, j: int)
    requires
        0 <= j < a.len(),
    ensures
        subseq_of(a.remove(j), a),
{
    let f = Seq::new(
        (a.len() - 1) as nat,
        |i: int|
            if i < j {
                i
            } else {
                i + 1
            },
    );
    assert(is_subseq_map(f, a.remove(j), a));
}

proof fn lemma_subseq_trans(a: Seq<MempoolEntry>, b: Seq<MempoolEntry>, c: Seq<MempoolEntry>)
    requires
        subseq_of(a, b),
        subseq_of(b, c),
    ensures
        subseq_of(a, c),
{
    let f = choose|f: Seq<int>| is_subseq_map(f, a, b);
    let g = choose|g: Seq<int>| is_subseq_map(g, b, c);
    let h = Seq::new(a.len(), |i: int| g[f[i]]);
    assert(is_subseq_map(h, a, c));
}

/// The sortedness, distinctness and consistency facts of the stored
/// entries carry over to any subsequence.
proof fn lemma_entries_facts_subseq(a: Seq<MempoolEntry>, b: Seq<MempoolEntry>)
    requires
        subseq_of(a, b),
        forall|i: int, j: int|
            0 <= i < j < b.len() ==> rate_ge(
                (#[trigger] b[i]).fee,
                b[i].size,
                (#[trigger] b[j]).fee,
                b[j].size,
            ),
        forall|i: int, j: int|
            0 <= i < j < b.len() ==> (#[trigger] b[i]).txid != (#[trigger] b[j]).txid,
        forall|i: int|
            0 <= i < b.len() ==> (#[trigger] b[i]).size >= 1 && b[i].txid == spec_txid(b[i].tx)
                && tx_encodable(b[i].tx),
    ensures
        forall|i: int, j: int|
            0 <= i < j < a.len() ==> rate_ge(
                (#[trigger] a[i]).fee,
                a[i].size,
                (#[trigger] a[j]).fee,
                a[j].size,
            ),
        forall|i: int, j: int|
            0 <= i < j < a.len() ==> (#[trigger] a[i]).txid != (#[trigger] a[j]).txid,
        forall|i: int|
            0 <= i < a.len() ==> (#[trigger] a[i]).size >= 1 && a[i].txid == spec_txid(a[i].tx)
                && tx_encodable(a[i].tx),
        a.len() <= b.len(),
        forall|p: int|
            0 <= p < a.len() ==> exists|q: int| 0 <= q < b.len() && #[trigger] a[p] == b[q],
{
    let f = choose|f: Seq<int>| is_subseq_map(f, a, b);
    assert forall|i: int, j: int| 0 <= i < j < a.len() implies rate_ge(
        (#[trigger] a[i]).fee,
        a[i].size,
        (#[trigger] a[j]).fee,
        a[j].size,
    ) && (a[i]).txid != (a[j]).txid by {
        assert(a[i] == b[f[i]] && a[j] == b[f[j]] && f[i] < f[j]);
    }
    assert forall|i: int| 0 <= i < a.len() implies (#[trigger] a[i]).size >= 1 && a[i].txid
        == spec_txid(a[i].tx) && tx_encodable(a[i].tx) by {
        assert(a[i] == b[f[i]]);
    }
    if a.len() > 0 {
        lemma_subseq_map_lower(f, a.len() - 1);
        assert(f[a.len() - 1] >= a.len() - 1);
        assert(f[a.len() - 1] < b.len());
    }
    assert forall|p: int| 0 <= p < a.len() implies exists|q: int|
        0 <= q < b.len() && #[trigger] a[p] == b[q] by {
        assert(a[p] == b[f[p]]);
    }
}

/// A strictly increasing integer sequence grows at least linearly.
proof fn lemma_subseq_map_lower(f: Seq<int>, p: int)
    requires
        0 <= p < f.len(),
        forall|x: int, y: int| 0 <= x < y < f.len() ==> f[x] < f[y],
        forall|x: int| 0 <= x < f.len() ==> #[trigger] f[x] >= 0,
    ensures
        f[p] >= p,
    decreases p,
{
    if p > 0 {
        lemma_subseq_map_lower(f, p - 1);
    }
}

} // verus!
