//! The unspent-transaction-output set of the active chain.

use vstd::prelude::*;
use crate::hashes::Hash256;
use crate::keymap::KeyMap;
use crate::types::{OutPoint, TxOutput};

verus! {

/// An unspent output: the output itself, the height it was created at,
/// and whether it was minted by a coinbase.
#[derive(Debug, Clone, Copy, PartialEq, Eq, Structural)]
pub struct UtxoEntry {
    pub output: TxOutput,
    pub height: u64,
    pub is_coinbase: bool,
}

/// The UTXO set: a map from outpoint to unspent entry.
pub struct UtxoSet {
    pub utxos: KeyMap<OutPoint, UtxoEntry>,
}

/// Whether a stored pair's output is owned by the given pubkey hash.
pub open spec fn owned_by(owner: Hash256) -> spec_fn((OutPoint, UtxoEntry)) -> bool {
    |p: (OutPoint, UtxoEntry)| p.1.output.pubkey_hash == owner
}

/// Saturating sum of the amounts owned by `owner` among the pairs.
pub open spec fn spec_balance(pairs: Seq<(OutPoint, UtxoEntry)>, owner: Hash256) -> int
    decreases pairs.len(),
{
    if pairs.len() == 0 {
        0
    } else {
        spec_balance(pairs.drop_last(), owner) + if pairs.last().1.output.pubkey_hash == owner {
            pairs.last().1.output.amount as int
        } else {
            0
        }
    }
}

impl UtxoSet {
    /// The abstract map held.
    pub open spec fn view(&self) -> Map<OutPoint, UtxoEntry> {
        self.utxos@
    }

    pub open spec fn wf(&self) -> bool {
        self.utxos.wf()
    }

    /// The empty set.
    pub fn new() -> (s: UtxoSet)
        ensures
            s.wf(),
            s@ == Map::<OutPoint, UtxoEntry>::empty(),
            s.utxos.pairs().len() == 0,
    {
        UtxoSet { utxos: KeyMap::new() }
    }

    /// Add an unspent entry, replacing any previous one at the outpoint.
    pub fn add(&mut self, outpoint: OutPoint, entry: UtxoEntry)
        requires
            old(self).wf(),
        ensures
            final(self).wf(),
            final(self)@ == old(self)@.insert(outpoint, entry),
    {
        self.utxos.insert(outpoint, entry);
    }

    /// Spend an outpoint, removing and returning its entry.
    pub fn spend(&mut self, outpoint: &OutPoint) -> (r: Option<UtxoEntry>)
        requires
            old(self).wf(),
        ensures
            final(self).wf(),
            final(self)@ == old(self)@.remove(*outpoint),
            match r {
                Some(e) => old(self)@.dom().contains(*outpoint) && e == old(self)@[*outpoint]
                    && final(self).utxos.pairs().len() == old(self).utxos.pairs().len() - 1,
                None => !old(self)@.dom().contains(*outpoint) && final(self).utxos.pairs() == old(
                    self,
                ).utxos.pairs(),
            },
    {
        self.utxos.remove(outpoint)
    }

    /// Whether an outpoint is unspent.
    pub fn contains(&self, outpoint: &OutPoint) -> (b: bool)
        requires
            self.wf(),
        ensures
            b == self@.dom().contains(*outpoint),
    {
        self.utxos.contains_key(outpoint)
    }

    /// The entry at an outpoint, if unspent.
    pub fn get(&self, outpoint: &OutPoint) -> (r: Option<&UtxoEntry>)
        requires
            self.wf(),
        ensures
            match r {
                Some(e) => self@.dom().contains(*outpoint) && *e == self@[*outpoint],
                None => !self@.dom().contains(*outpoint),
            },
    {
        self.utxos.get(outpoint)
    }

    /// Sum of the amounts owned by a pubkey hash, saturated at `u64::MAX`.
    pub fn balance_of(&self, pubkey_hash: &Hash256) -> (r: u64)
        requires
            self.wf(),
        ensures
            r == if spec_balance(self.utxos.pairs(), *pubkey_hash) > u64::MAX {
                u64::MAX as int
            } else {
                spec_balance(self.utxos.pairs(), *pubkey_hash)
            },
    {
        let pairs = self.utxos.entries();
        let n = pairs.len();
        let mut acc: u64 = 0;
        let mut i: usize = 0;
        while i < n
            invariant
                i <= n,
                n == pairs@.len(),
                pairs@ == self.utxos.pairs(),
                acc == if spec_balance(pairs@.subrange(0, i as int), *pubkey_hash) > u64::MAX {
                    u64::MAX as int
                } else {
                    spec_balance(pairs@.subrange(0, i as int), *pubkey_hash)
                },
            decreases n - i,
        {
            proof {
                let pre = pairs@.subrange(0, i + 1);
                assert(pre.drop_last() =~= pairs@.subrange(0, i as int));
                assert(pre.last() == pairs@[i as int]);
            }
            let entry = &pairs[i].1;
            if entry.output.pubkey_hash == *pubkey_hash {
                let amt = entry.output.amount;
                if u64::MAX - acc < amt {
                    acc = u64::MAX;
                } else {
                    acc = acc + amt;
                }
            }
            i = i + 1;
        }
        proof {
            assert(pairs@.subrange(0, n as int) =~= pairs@);
        }
        acc
    }

    /// The unspent outpoints and entries owned by a pubkey hash.
    pub fn utxos_for(&self, pubkey_hash: &Hash256) -> (r: Vec<(OutPoint, UtxoEntry)>)
        requires
            self.wf(),
        ensures
            r@ == self.utxos.pairs().filter(owned_by(*pubkey_hash)),
            forall|j: int|
                0 <= j < r@.len() ==> self@.dom().contains((#[trigger] r@[j]).0) && self@[r@[j].0]
                    == r@[j].1,
    {
        let ghost pred = owned_by(*pubkey_hash);
        let pairs = self.utxos.entries();
        let n = pairs.len();
        let mut out: Vec<(OutPoint, UtxoEntry)> = Vec::new();
        let mut i: usize = 0;
        proof {
            reveal(Seq::filter);
        }
        while i < n
            invariant
                i <= n,
                n == pairs@.len(),
                pairs@ == self.utxos.pairs(),
                self.wf(),
                pred == owned_by(*pubkey_hash),
                out@ == pairs@.subrange(0, i as int).filter(pred),
                forall|j: int|
                    0 <= j < out@.len() ==> self@.dom().contains((#[trigger] out@[j]).0)
                        && self@[out@[j].0] == out@[j].1,
            decreases n - i,
        {
            proof {
                let pre = pairs@.subrange(0, i + 1);
                assert(pre.drop_last() =~= pairs@.subrange(0, i as int));
                assert(pre.last() == pairs@[i as int]);
            }
            let p = &pairs[i];
            if p.1.output.pubkey_hash == *pubkey_hash {
                proof {
                    self.utxos.lemma_pair_in_view(i as int);
                }
                out.push((p.0, p.1));
            }
            proof {
                reveal(Seq::filter);
                let pre = pairs@.subrange(0, i + 1);
                assert(pre.drop_last() =~= pairs@.subrange(0, i as int));
                assert(pre.filter(pred) == if pred(pre.last()) {
                    pre.drop_last().filter(pred).push(pre.last())
                } else {
                    pre.drop_last().filter(pred)
                });
            }
            i = i + 1;
        }
        proof {
            assert(pairs@.subrange(0, n as int) =~= pairs@);
        }
        out
    }

    /// Number of unspent outputs.
    pub fn len(&self) -> (n: usize)
        ensures
            n == self.utxos.pairs().len(),
    {
        self.utxos.len()
    }

    /// Whether the set is empty.
    pub fn is_empty(&self) -> (b: bool)
        requires
            self.wf(),
        ensures
            b == (self@ == Map::<OutPoint, UtxoEntry>::empty()),
    {
        self.utxos.is_empty()
    }

    /// All unspent outpoints and entries, for iteration and persistence.
    pub fn iter(&self) -> (r: &Vec<(OutPoint, UtxoEntry)>)
        ensures
            r@ == self.utxos.pairs(),
    {
        self.utxos.entries()
    }
}

} // verus!
