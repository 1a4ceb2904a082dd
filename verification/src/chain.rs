//! The chain engine: block acceptance, UTXO application, fork tracking,
//! reorganization and difficulty bookkeeping.

use vstd::prelude::*;
use crate::hashes::{Hash256, spec_null_hash, null_hash, dsha256_hash_of, hash_bytes,
    leading_zero_bits};
use crate::types::{OutPoint, TxInput, TxOutput, Transaction, Block, BlockHeader, spec_txid,
    spec_is_coinbase, sum_amounts, spec_header_pow_hash, spec_meets_difficulty, merkle_root_of,
    block_txids, block_enc, block_encodable, tx_encodable, coinbase_outputs,
    spec_tx_signing_hash_v1, tx_signing_hash_v1};
use crate::utxo::{UtxoSet, UtxoEntry};
use crate::keymap::KeyMap;
use crate::work::{Work, work_val, sat_add_val};
use crate::difficulty::{replay_frac, spec_next_difficulty_fp, spec_fp_to_integer,
    INITIAL_DIFFICULTY_FP, fractional_to_integer_difficulty, calculate_next_difficulty_fractional,
    replay_difficulty_fp, lemma_next_fp_suffix, DIFFICULTY_WINDOW};
use crate::params::{spec_block_reward, block_reward, INITIAL_DIFFICULTY, MAX_BLOCK_SIZE,
    MIN_TX_FEE, COINBASE_MATURITY};
use crate::crypto::spec_verify_signature;
use vstd::arithmetic::power2::pow2;

verus! {

/// Why a block was rejected. The caller distinguishes harmless races
/// (duplicates, orphans) from penalized misbehavior.
#[derive(Debug, Clone)]
pub enum BlockError {
    DuplicateBlock,
    OrphanBlock,
    InvalidHeight,
    InvalidPrevHash,
    InvalidTimestamp,
    TimestampTooFarInFuture,
    InvalidDifficulty { expected: u32, got: u32 },
    InsufficientPoW,
    InvalidMerkleRoot,
    BlockTooLarge,
    NoTransactions,
    NoCoinbase,
    InvalidCoinbaseAmount,
    InvalidTransaction(String),
}

// ─── UTXO application model ──────────────────────────────────────────

/// Remove the outpoints consumed by a list of inputs.
pub open spec fn spec_remove_inputs(m: Map<OutPoint, UtxoEntry>, inputs: Seq<TxInput>) -> Map<
    OutPoint,
    UtxoEntry,
>
    decreases inputs.len(),
{
    if inputs.len() == 0 {
        m
    } else {
        spec_remove_inputs(m, inputs.drop_last()).remove(inputs.last().previous_output)
    }
}

/// Add the outputs of a transaction at its txid.
pub open spec fn spec_add_outputs(
    m: Map<OutPoint, UtxoEntry>,
    txid: Hash256,
    outputs: Seq<TxOutput>,
    height: u64,
    is_coinbase: bool,
) -> Map<OutPoint, UtxoEntry>
    decreases outputs.len(),
{
    if outputs.len() == 0 {
        m
    } else {
        spec_add_outputs(m, txid, outputs.drop_last(), height, is_coinbase).insert(
            OutPoint { txid, vout: (outputs.len() - 1) as u32 },
            UtxoEntry { output: outputs.last(), height, is_coinbase },
        )
    }
}

/// Apply one transaction: spend its inputs (unless coinbase), then add
/// its outputs.
pub open spec fn spec_apply_tx(m: Map<OutPoint, UtxoEntry>, tx: Transaction, height: u64) -> Map<
    OutPoint,
    UtxoEntry,
> {
    let base = if spec_is_coinbase(tx) {
        m
    } else {
        spec_remove_inputs(m, tx.inputs@)
    };
    spec_add_outputs(base, spec_txid(tx), tx.outputs@, height, spec_is_coinbase(tx))
}

/// Apply a list of transactions in order.
pub open spec fn spec_apply_txs(m: Map<OutPoint, UtxoEntry>, txs: Seq<Transaction>, height: u64)
    -> Map<OutPoint, UtxoEntry>
    decreases txs.len(),
{
    if txs.len() == 0 {
        m
    } else {
        spec_apply_tx(spec_apply_txs(m, txs.drop_last(), height), txs.last(), height)
    }
}

/// Apply all of a block's transactions.
pub open spec fn spec_apply_block(m: Map<OutPoint, UtxoEntry>, b: Block) -> Map<
    OutPoint,
    UtxoEntry,
> {
    spec_apply_txs(m, b.transactions@, b.header.height)
}

/// The UTXO set produced by replaying a chain of blocks from nothing.
pub open spec fn spec_utxo_after(blocks: Seq<Block>) -> Map<OutPoint, UtxoEntry>
    decreases blocks.len(),
{
    if blocks.len() == 0 {
        Map::empty()
    } else {
        spec_apply_block(spec_utxo_after(blocks.drop_last()), blocks.last())
    }
}

// ─── Header ancestry ─────────────────────────────────────────────────

/// Every known non-genesis header has a known parent one height below
/// it, with a strictly earlier timestamp.
pub open spec fn headers_linked(hs: Map<Hash256, BlockHeader>) -> bool {
    forall|k: Hash256|
        #[trigger] hs.dom().contains(k) && hs[k].height > 0 ==> {
            &&& hs.dom().contains(hs[k].prev_hash)
            &&& hs[hs[k].prev_hash].height + 1 == hs[k].height
            &&& hs[hs[k].prev_hash].timestamp < hs[k].timestamp
        }
}

/// The hashes from genesis to `k`, oldest first.
pub open spec fn ancestry_hashes(hs: Map<Hash256, BlockHeader>, k: Hash256) -> Seq<Hash256>
    decreases hs[k].height when headers_linked(hs) && hs.dom().contains(k)
{
    if hs[k].height == 0 {
        seq![k]
    } else {
        ancestry_hashes(hs, hs[k].prev_hash).push(k)
    }
}

/// The timestamps from genesis to `k`, oldest first.
pub open spec fn ancestry_ts(hs: Map<Hash256, BlockHeader>, k: Hash256) -> Seq<u64>
    decreases hs[k].height when headers_linked(hs) && hs.dom().contains(k)
{
    if hs[k].height == 0 {
        seq![hs[k].timestamp]
    } else {
        ancestry_ts(hs, hs[k].prev_hash).push(hs[k].timestamp)
    }
}

/// The integer difficulty expected of a block whose parent is `p`:
/// replay the engine over the parent's ancestry timestamps.
pub open spec fn spec_expected_difficulty(hs: Map<Hash256, BlockHeader>, p: Hash256) -> u32 {
    spec_fp_to_integer(replay_frac(ancestry_ts(hs, p)))
}

/// Structural validity of a block against the known headers: known
/// parent, consecutive height, increasing timestamp, expected difficulty,
/// sufficient proof of work, correct merkle root, size cap, and a
/// leading coinbase. These are exactly the context checks of acceptance
/// that do not depend on the wall clock or the UTXO set.
pub open spec fn spec_block_structural_valid(hs: Map<Hash256, BlockHeader>, b: Block) -> bool {
    let p = b.header.prev_hash;
    &&& hs.dom().contains(p)
    &&& b.header.height == hs[p].height + 1
    &&& b.header.timestamp > hs[p].timestamp
    &&& b.header.difficulty_target == spec_expected_difficulty(hs, p)
    &&& spec_meets_difficulty(b.header)
    &&& b.header.merkle_root == merkle_root_of(block_txids(b.transactions@))
    &&& block_encodable(b)
    &&& block_enc(b).len() <= MAX_BLOCK_SIZE
    &&& b.transactions@.len() > 0
    &&& spec_is_coinbase(b.transactions@[0])
}

// ─── Transaction validation model ────────────────────────────────────

/// Validity of one input against the active UTXO set at target height
/// `h`: the referenced output exists, a coinbase output is mature, the
/// key hashes to the output's owner, and the signature verifies over the
/// canonical signing hash.
pub open spec fn spec_input_valid(
    utxo: Map<OutPoint, UtxoEntry>,
    tx: Transaction,
    i: int,
    h: u64,
) -> bool {
    let inp = tx.inputs@[i];
    &&& utxo.dom().contains(inp.previous_output)
    &&& (utxo[inp.previous_output].is_coinbase ==> h >= utxo[inp.previous_output].height
        + COINBASE_MATURITY)
    &&& inp.pubkey@.len() == 32
    &&& dsha256_hash_of(inp.pubkey@) == utxo[inp.previous_output].output.pubkey_hash
    &&& spec_verify_signature(
        inp.pubkey@,
        hash_bytes(spec_tx_signing_hash_v1(tx, i, utxo[inp.previous_output].output)),
        inp.signature@,
    )
}

/// Sum of the amounts of the referenced unspent outputs; an absent
/// outpoint contributes nothing.
pub open spec fn spec_inputs_sum(utxo: Map<OutPoint, UtxoEntry>, inputs: Seq<TxInput>) -> int
    decreases inputs.len(),
{
    if inputs.len() == 0 {
        0
    } else {
        spec_inputs_sum(utxo, inputs.drop_last()) + if utxo.dom().contains(
            inputs.last().previous_output,
        ) {
            utxo[inputs.last().previous_output].output.amount as int
        } else {
            0
        }
    }
}

/// Contextual validity of a non-coinbase transaction at block height
/// `h`: non-empty inputs and outputs, every input valid, and the fee
/// (inputs minus outputs) at least the minimum.
pub open spec fn spec_tx_valid(utxo: Map<OutPoint, UtxoEntry>, tx: Transaction, h: u64) -> bool {
    &&& tx.inputs@.len() > 0
    &&& tx.outputs@.len() > 0
    &&& (forall|i: int| 0 <= i < tx.inputs@.len() ==> spec_input_valid(utxo, tx, i, h))
    &&& spec_inputs_sum(utxo, tx.inputs@) >= sum_amounts(tx.outputs@)
    &&& spec_inputs_sum(utxo, tx.inputs@) - sum_amounts(tx.outputs@) >= MIN_TX_FEE
}

/// Whether the fee of every non-coinbase transaction of a block is
/// computable: all inputs present and no output total above the inputs.
pub open spec fn spec_fees_computable(utxo: Map<OutPoint, UtxoEntry>, txs: Seq<Transaction>)
    -> bool {
    forall|t: int|
        1 <= t < txs.len() ==> {
            &&& (forall|i: int|
                0 <= i < (#[trigger] txs[t]).inputs@.len() ==> utxo.dom().contains(
                    #[trigger] txs[t].inputs@[i].previous_output,
                ))
            &&& spec_inputs_sum(utxo, txs[t].inputs@) >= sum_amounts(txs[t].outputs@)
        }
}

/// Total fees of the non-coinbase transactions of a block.
pub open spec fn spec_block_fees(utxo: Map<OutPoint, UtxoEntry>, txs: Seq<Transaction>, t: int)
    -> int
    decreases t,
{
    if t <= 1 {
        0
    } else {
        spec_block_fees(utxo, txs, t - 1) + spec_inputs_sum(utxo, txs[t - 1].inputs@) - sum_amounts(
            txs[t - 1].outputs@,
        )
    }
}

// ─── Genesis ─────────────────────────────────────────────────────────

/// What the deterministic genesis block looks like for a given genesis
/// timestamp: one coinbase splitting the initial reward between the
/// all-zero miner key hash and the fixed community fund hash.
pub open spec fn is_genesis_block(b: Block, genesis_timestamp: u64) -> bool {
    &&& b.header.version == 3
    &&& b.header.prev_hash == spec_null_hash()
    &&& b.header.timestamp == genesis_timestamp
    &&& b.header.difficulty_target == INITIAL_DIFFICULTY
    &&& b.header.nonce == 0
    &&& b.header.height == 0
    &&& b.header.merkle_root == merkle_root_of(block_txids(b.transactions@))
    &&& b.transactions@.len() == 1
    &&& spec_is_coinbase(b.transactions@[0])
    &&& b.transactions@[0].outputs@ == coinbase_outputs(
        spec_block_reward(0),
        spec_null_hash(),
        community_fund_hash_spec(),
    )
    &&& block_encodable(b)
}

/// The fixed community-fund pubkey hash: the byte `0xCF` repeated.
pub open spec fn community_fund_hash_spec() -> Hash256 {
    Hash256 {
        w0: 0xCFCFCFCFCFCFCFCFu64,
        w1: 0xCFCFCFCFCFCFCFCFu64,
        w2: 0xCFCFCFCFCFCFCFCFu64,
        w3: 0xCFCFCFCFCFCFCFCFu64,
    }
}

/// The fixed community-fund pubkey hash.
pub fn community_fund_hash() -> (h: Hash256)
    ensures
        h == community_fund_hash_spec(),
{
    Hash256 {
        w0: 0xCFCFCFCFCFCFCFCF,
        w1: 0xCFCFCFCFCFCFCFCF,
        w2: 0xCFCFCFCFCFCFCFCF,
        w3: 0xCFCFCFCFCFCFCFCF,
    }
}

// ─── The chain ───────────────────────────────────────────────────────

/// The chain state: all known headers and blocks, the active chain's
/// height index and UTXO set, cumulative work, and the difficulty
/// engine's window.
pub struct Chain {
    /// All known block headers, indexed by their proof-of-work hash.
    pub headers: KeyMap<Hash256, BlockHeader>,
    /// All known full blocks.
    pub blocks: KeyMap<Hash256, Block>,
    /// Hash of the active-chain block at each height.
    pub height_index: Vec<Hash256>,
    /// Cumulative work of each known block.
    pub cumulative_work: KeyMap<Hash256, Work>,
    /// Parent hash to child hashes, for chain walks.
    pub children: KeyMap<Hash256, Vec<Hash256>>,
    /// The UTXO set of the active chain.
    pub utxo_set: UtxoSet,
    /// The active tip.
    pub tip: Hash256,
    /// The active height.
    pub height: u64,
    /// Recent active-chain timestamps, for the difficulty engine.
    pub recent_timestamps: Vec<u64>,
    /// The fractional difficulty at the tip, in fixed point.
    pub fractional_difficulty: u64,
    /// The genesis timestamp this chain was built with.
    pub genesis_time: u64,
    /// When set, callers suppress per-block persistence.
    pub batch_mode: bool,
}

impl Chain {
    /// The active chain's blocks, oldest first.
    pub open spec fn active_blocks(&self) -> Seq<Block> {
        self.height_index@.map_values(|h: Hash256| self.blocks@[h])
    }

    /// The active chain's timestamps, oldest first.
    pub open spec fn active_ts(&self) -> Seq<u64> {
        self.height_index@.map_values(|h: Hash256| self.headers@[h].timestamp)
    }

    /// How many of the most recent active timestamps the engine keeps.
    pub open spec fn kept_ts(&self) -> int {
        if self.active_ts().len() > DIFFICULTY_WINDOW + 10 {
            (DIFFICULTY_WINDOW + 10) as int
        } else {
            self.active_ts().len() as int
        }
    }

    /// The tip carries the most cumulative work of any known block.
    pub open spec fn tip_work_max(&self) -> bool {
        forall|k: Hash256|
            #[trigger] self.cumulative_work@.dom().contains(k) ==> work_val(
                self.cumulative_work@[self.tip],
            ) >= work_val(self.cumulative_work@[k])
    }

    /// Well-formedness: the full chain invariant.
    pub open spec fn wf(&self) -> bool {
        &&& self.wf_core()
        &&& self.tip_work_max()
    }

    /// The backing maps are well-formed.
    pub open spec fn maps_ok(&self) -> bool {
        &&& self.headers.wf()
        &&& self.blocks.wf()
        &&& self.cumulative_work.wf()
        &&& self.children.wf()
        &&& self.utxo_set.wf()
    }

    /// The height index spans `0..=height`, ends at the tip, and every
    /// indexed hash has its header at its height, linked to its
    /// predecessor, with the genesis parent null.
    pub open spec fn index_ok(&self) -> bool {
        let n = self.height_index@.len() as int;
        &&& n == self.height + 1
        &&& self.tip == self.height_index@[n - 1]
        &&& (forall|h: int|
            0 <= h < n ==> {
                &&& self.headers@.dom().contains(#[trigger] self.height_index@[h])
                &&& self.headers@[self.height_index@[h]].height == h
                &&& (h > 0 ==> self.headers@[self.height_index@[h]].prev_hash
                    == self.height_index@[h - 1])
            })
        &&& self.headers@[self.height_index@[0]].prev_hash == spec_null_hash()
    }

    /// Headers, blocks and work share a domain; stored values agree and
    /// every key is the proof-of-work hash of its header.
    #[verifier::opaque]
    pub open spec fn doms_ok(&self) -> bool {
        &&& self.blocks@.dom() == self.headers@.dom()
        &&& self.cumulative_work@.dom() == self.headers@.dom()
        &&& (forall|k: Hash256|
            #[trigger] self.headers@.dom().contains(k) ==> {
                &&& self.blocks@[k].header == self.headers@[k]
                &&& spec_header_pow_hash(self.headers@[k]) == k
            })
    }

    /// Exactly one known block sits at height zero: the genesis.
    #[verifier::opaque]
    pub open spec fn genesis_unique_ok(&self) -> bool {
        forall|k: Hash256|
            #[trigger] self.headers@.dom().contains(k) && self.headers@[k].height == 0 ==> k
                == self.height_index@[0]
    }

    /// The UTXO set is exactly the replay of the active chain.
    #[verifier::opaque]
    pub open spec fn utxo_ok(&self) -> bool {
        self.utxo_set@ == spec_utxo_after(self.active_blocks())
    }

    /// The recent-timestamp window is the tail of the active chain's.
    #[verifier::opaque]
    pub open spec fn window_ok(&self) -> bool {
        self.recent_timestamps@ == self.active_ts().subrange(
            self.active_ts().len() - self.kept_ts(),
            self.active_ts().len() as int,
        )
    }

    /// The cached fractional difficulty replays the active chain.
    #[verifier::opaque]
    pub open spec fn frac_ok(&self) -> bool {
        self.fractional_difficulty == replay_frac(self.active_ts())
    }

    /// Every known non-genesis block passed the structural checks
    /// against its own ancestry.
    #[verifier::opaque]
    pub open spec fn validity_ok(&self) -> bool {
        forall|k: Hash256|
            #[trigger] self.headers@.dom().contains(k) && self.headers@[k].height > 0
                ==> spec_block_structural_valid(self.headers@, self.blocks@[k])
    }

    /// Every child link points from its parent.
    #[verifier::opaque]
    pub open spec fn children_ok(&self) -> bool {
        forall|p: Hash256, j: int|
            #[trigger] self.children@.dom().contains(p) && 0 <= j < self.children@[p]@.len()
                ==> self.headers@.dom().contains(#[trigger] self.children@[p]@[j])
                && self.headers@[self.children@[p]@[j]].prev_hash == p
    }

    /// The chain invariant apart from the fork-choice condition.
    pub open spec fn wf_core(&self) -> bool {
        &&& self.maps_ok()
        &&& self.index_ok()
        &&& self.doms_ok()
        &&& headers_linked(self.headers@)
        &&& self.genesis_unique_ok()
        &&& self.utxo_ok()
        &&& self.window_ok()
        &&& self.frac_ok()
        &&& self.validity_ok()
        &&& is_genesis_block(self.blocks@[self.height_index@[0]], self.genesis_time)
        &&& self.children_ok()
    }
}

// ─── Ancestry lemmas ─────────────────────────────────────────────────

/// Shape of an ancestry: it spans heights `0..=height(k)`, each entry
/// sits at its index's height, links to its predecessor, and the list
/// ends at `k`.
pub proof fn lemma_ancestry_shape(hs: Map<Hash256, BlockHeader>, k: Hash256)
    requires
        headers_linked(hs),
        hs.dom().contains(k),
    ensures
        ancestry_hashes(hs, k).len() == hs[k].height + 1,
        ancestry_ts(hs, k).len() == hs[k].height + 1,
        ancestry_hashes(hs, k).last() == k,
        forall|j: int|
            0 <= j < ancestry_hashes(hs, k).len() ==> {
                &&& hs.dom().contains(#[trigger] ancestry_hashes(hs, k)[j])
                &&& hs[ancestry_hashes(hs, k)[j]].height == j
                &&& ancestry_ts(hs, k)[j] == hs[ancestry_hashes(hs, k)[j]].timestamp
                &&& (j > 0 ==> hs[ancestry_hashes(hs, k)[j]].prev_hash == ancestry_hashes(hs, k)[j
                    - 1])
            },
    decreases hs[k].height,
{
    if hs[k].height > 0 {
        lemma_ancestry_shape(hs, hs[k].prev_hash);
    }
}

/// Inserting a header under a fresh key leaves every old key's ancestry
/// unchanged.
pub proof fn lemma_ancestry_insert_fresh(
    hs: Map<Hash256, BlockHeader>,
    k: Hash256,
    hdr: BlockHeader,
    x: Hash256,
)
    requires
        headers_linked(hs),
        headers_linked(hs.insert(k, hdr)),
        !hs.dom().contains(k),
        hs.dom().contains(x),
    ensures
        ancestry_hashes(hs.insert(k, hdr), x) == ancestry_hashes(hs, x),
        ancestry_ts(hs.insert(k, hdr), x) == ancestry_ts(hs, x),
    decreases hs[x].height,
{
    let hs2 = hs.insert(k, hdr);
    assert(x != k);
    assert(hs2[x] == hs[x]);
    if hs[x].height > 0 {
        lemma_ancestry_insert_fresh(hs, k, hdr, hs[x].prev_hash);
    }
}

/// Along a well-formed height index, the ancestry of the entry at
/// height `h` is exactly the index prefix up to `h`.
pub proof fn lemma_active_ancestry(
    hs: Map<Hash256, BlockHeader>,
    index: Seq<Hash256>,
    h: int,
)
    requires
        headers_linked(hs),
        0 <= h < index.len(),
        forall|j: int|
            0 <= j < index.len() ==> {
                &&& hs.dom().contains(#[trigger] index[j])
                &&& hs[index[j]].height == j
                &&& (j > 0 ==> hs[index[j]].prev_hash == index[j - 1])
            },
    ensures
        ancestry_hashes(hs, index[h]) == index.subrange(0, h + 1),
        ancestry_ts(hs, index[h]) == index.subrange(0, h + 1).map_values(
            |x: Hash256| hs[x].timestamp,
        ),
    decreases h,
{
    if h == 0 {
        assert(ancestry_hashes(hs, index[0]) =~= index.subrange(0, 1));
        assert(ancestry_ts(hs, index[0]) =~= index.subrange(0, 1).map_values(
            |x: Hash256| hs[x].timestamp,
        ));
    } else {
        lemma_active_ancestry(hs, index, h - 1);
        assert(ancestry_hashes(hs, index[h]) =~= index.subrange(0, h + 1));
        assert(ancestry_ts(hs, index[h]) =~= index.subrange(0, h + 1).map_values(
            |x: Hash256| hs[x].timestamp,
        ));
    }
}

impl Chain {
    /// Walk back from a known hash and return its full ancestry, oldest
    /// first, ending at the hash itself.
    fn ancestry_of(&self, from: &Hash256) -> (r: Vec<Hash256>)
        requires
            self.headers.wf(),
            headers_linked(self.headers@),
            self.headers@.dom().contains(*from),
        ensures
            r@ == ancestry_hashes(self.headers@, *from),
    {
        let ghost hs = self.headers@;
        let mut acc: Vec<Hash256> = Vec::new();
        let mut cur: Hash256 = *from;
        proof {
            assert(ancestry_hashes(hs, *from) =~= ancestry_hashes(hs, cur) + acc@);
        }
        loop
            invariant_except_break
                hs.dom().contains(cur),
                ancestry_hashes(hs, *from) == ancestry_hashes(hs, cur) + acc@,
            invariant
                self.headers.wf(),
                hs == self.headers@,
                headers_linked(hs),
            ensures
                acc@ == ancestry_hashes(hs, *from),
            decreases hs[cur].height,
        {
            let hdr: BlockHeader = *self.headers.get(&cur).unwrap();
            let ghost acc_old = acc@;
            if hdr.height == 0 {
                acc.insert(0, cur);
                proof {
                    assert(ancestry_hashes(hs, cur) =~= seq![cur]);
                    assert(acc@ =~= seq![cur] + acc_old);
                    assert(acc@ =~= ancestry_hashes(hs, *from));
                }
                break ;
            }
            let prev = hdr.prev_hash;
            acc.insert(0, cur);
            proof {
                assert(acc@ =~= seq![cur] + acc_old);
                assert(ancestry_hashes(hs, cur) =~= ancestry_hashes(hs, prev).push(cur));
                assert(ancestry_hashes(hs, prev) + acc@ =~= ancestry_hashes(hs, *from));
            }
            cur = prev;
        }
        acc
    }

    /// The ancestry timestamps of a known hash, oldest first.
    fn ancestry_timestamps_of(&self, from: &Hash256) -> (r: Vec<u64>)
        requires
            self.headers.wf(),
            headers_linked(self.headers@),
            self.headers@.dom().contains(*from),
        ensures
            r@ == ancestry_ts(self.headers@, *from),
    {
        let hashes = self.ancestry_of(from);
        let ghost hs = self.headers@;
        proof {
            lemma_ancestry_shape(hs, *from);
        }
        let n = hashes.len();
        let mut out: Vec<u64> = Vec::new();
        let mut i: usize = 0;
        while i < n
            invariant
                i <= n,
                n == hashes@.len(),
                self.headers.wf(),
                hs == self.headers@,
                hashes@ == ancestry_hashes(hs, *from),
                ancestry_ts(hs, *from).len() == n,
                forall|j: int|
                    0 <= j < n ==> hs.dom().contains(#[trigger] hashes@[j]) && ancestry_ts(
                        hs,
                        *from,
                    )[j] == hs[hashes@[j]].timestamp,
                out@ == ancestry_ts(hs, *from).subrange(0, i as int),
            decreases n - i,
        {
            let hdr: BlockHeader = *self.headers.get(&hashes[i]).unwrap();
            out.push(hdr.timestamp);
            proof {
                assert(out@ =~= ancestry_ts(hs, *from).subrange(0, i + 1));
            }
            i = i + 1;
        }
        proof {
            assert(ancestry_ts(hs, *from).subrange(0, n as int) =~= ancestry_ts(hs, *from));
        }
        out
    }

    /// The expected integer difficulty for a block whose parent is
    /// `parent_hash`, by replaying the engine over the parent's
    /// ancestry timestamps.
    pub fn difficulty_for_block_on_parent(&self, parent_hash: &Hash256) -> (r: u32)
        requires
            self.headers.wf(),
            headers_linked(self.headers@),
            self.headers@.dom().contains(*parent_hash),
        ensures
            r == spec_expected_difficulty(self.headers@, *parent_hash),
    {
        let ts = self.ancestry_timestamps_of(parent_hash);
        let frac = replay_difficulty_fp(&ts);
        fractional_to_integer_difficulty(frac)
    }

    /// The difficulty expected of a block extending the current tip,
    /// from the cached fractional difficulty.
    pub fn next_difficulty(&self) -> (r: u32)
        ensures
            r == spec_fp_to_integer(self.fractional_difficulty),
    {
        fractional_to_integer_difficulty(self.fractional_difficulty)
    }
}

// ─── Executable UTXO application ─────────────────────────────────────

/// Exact sum of a list of output amounts.
fn outputs_sum_u128(outputs: &Vec<TxOutput>) -> (r: u128)
    ensures
        r == sum_amounts(outputs@),
{
    let n = outputs.len();
    let mut acc: u128 = 0;
    let mut i: usize = 0;
    while i < n
        invariant
            i <= n,
            n == outputs@.len(),
            acc == sum_amounts(outputs@.subrange(0, i as int)),
            acc <= i * 0xFFFF_FFFF_FFFF_FFFFu128,
        decreases n - i,
    {
        proof {
            let pre = outputs@.subrange(0, i + 1);
            assert(pre.drop_last() =~= outputs@.subrange(0, i as int));
            assert((i + 1) * 0xFFFF_FFFF_FFFF_FFFFu128 == i * 0xFFFF_FFFF_FFFF_FFFFu128
                + 0xFFFF_FFFF_FFFF_FFFFu128) by (nonlinear_arith);
            assert(i + 1 <= 0x1_0000_0000_0000_0000);
            assert((i + 1) * 0xFFFF_FFFF_FFFF_FFFFu128 < 0x1_0000_0000_0000_0000_0000_0000_0000_0000)
                by (nonlinear_arith)
                requires
                    i + 1 <= 0x1_0000_0000_0000_0000,
            ;
        }
        acc = acc + (outputs[i].amount as u128);
        i = i + 1;
    }
    proof {
        assert(outputs@.subrange(0, n as int) =~= outputs@);
    }
    acc
}

/// Apply one block's transactions to a UTXO set.
fn apply_block_to_utxo(utxo: &mut UtxoSet, block: &Block)
    requires
        old(utxo).wf(),
        block_encodable(*block),
    ensures
        final(utxo).wf(),
        final(utxo)@ == spec_apply_block(old(utxo)@, *block),
{
    let height = block.header.height;
    let n = block.transactions.len();
    let mut t: usize = 0;
    while t < n
        invariant
            t <= n,
            n == block.transactions@.len(),
            block_encodable(*block),
            height == block.header.height,
            utxo.wf(),
            utxo@ == spec_apply_txs(old(utxo)@, block.transactions@.subrange(0, t as int), height),
        decreases n - t,
    {
        let ghost base = utxo@;
        let tx = &block.transactions[t];
        let is_cb = tx.is_coinbase();
        if !is_cb {
            let m = tx.inputs.len();
            let mut i: usize = 0;
            while i < m
                invariant
                    i <= m,
                    m == tx.inputs@.len(),
                    utxo.wf(),
                    utxo@ == spec_remove_inputs(base, tx.inputs@.subrange(0, i as int)),
                decreases m - i,
            {
                proof {
                    let pre = tx.inputs@.subrange(0, i + 1);
                    assert(pre.drop_last() =~= tx.inputs@.subrange(0, i as int));
                }
                let _ = utxo.spend(&tx.inputs[i].previous_output);
                i = i + 1;
            }
            proof {
                assert(tx.inputs@.subrange(0, m as int) =~= tx.inputs@);
            }
        }
        let ghost base2 = utxo@;
        let txid = tx.hash();
        let k = tx.outputs.len();
        let mut j: usize = 0;
        while j < k
            invariant
                j <= k,
                k == tx.outputs@.len(),
                utxo.wf(),
                txid == spec_txid(block.transactions@[t as int]),
                tx == &block.transactions@[t as int],
                is_cb == spec_is_coinbase(block.transactions@[t as int]),
                height == block.header.height,
                utxo@ == spec_add_outputs(
                    base2,
                    txid,
                    tx.outputs@.subrange(0, j as int),
                    height,
                    is_cb,
                ),
            decreases k - j,
        {
            proof {
                let pre = tx.outputs@.subrange(0, j + 1);
                assert(pre.drop_last() =~= tx.outputs@.subrange(0, j as int));
                assert(pre.last() == tx.outputs@[j as int]);
            }
            utxo.add(
                OutPoint { txid, vout: j as u32 },
                UtxoEntry { output: tx.outputs[j], height, is_coinbase: is_cb },
            );
            j = j + 1;
        }
        proof {
            assert(tx.outputs@.subrange(0, k as int) =~= tx.outputs@);
            let pret = block.transactions@.subrange(0, t + 1);
            assert(pret.drop_last() =~= block.transactions@.subrange(0, t as int));
            assert(pret.last() == block.transactions@[t as int]);
            assert(utxo@ == spec_apply_tx(base, block.transactions@[t as int], height));
        }
        t = t + 1;
    }
    proof {
        assert(block.transactions@.subrange(0, n as int) =~= block.transactions@);
    }
}

// ─── Genesis construction ────────────────────────────────────────────

/// Build the deterministic genesis block for a genesis timestamp.
pub fn create_genesis_block(genesis_timestamp: u64) -> (b: Block)
    ensures
        is_genesis_block(b, genesis_timestamp),
{
    let reward = block_reward(0);
    let coinbase = Transaction::new_coinbase(0, reward, null_hash(), community_fund_hash());
    let mut transactions: Vec<Transaction> = Vec::new();
    transactions.push(coinbase);
    let mut block = Block {
        header: BlockHeader {
            version: 3,
            prev_hash: null_hash(),
            merkle_root: null_hash(),
            timestamp: genesis_timestamp,
            difficulty_target: INITIAL_DIFFICULTY,
            nonce: 0,
            height: 0,
        },
        transactions,
    };
    let root = block.compute_merkle_root();
    block.header.merkle_root = root;
    block
}

impl Chain {
    /// A fresh in-memory chain holding only the genesis block for the
    /// given genesis timestamp.
    pub fn new(genesis_timestamp: u64) -> (c: Chain)
        ensures
            c.wf(),
            c.height == 0,
            c.genesis_time == genesis_timestamp,
            is_genesis_block(c.blocks@[c.tip], genesis_timestamp),
            c.batch_mode == false,
            c.active_blocks().len() == 1,
    {
        let genesis = create_genesis_block(genesis_timestamp);
        let genesis_hash = genesis.header.hash();
        let work = Work::from_difficulty(genesis.header.difficulty_target);

        let mut utxo_set = UtxoSet::new();
        apply_block_to_utxo(&mut utxo_set, &genesis);

        let mut headers: KeyMap<Hash256, BlockHeader> = KeyMap::new();
        headers.insert(genesis_hash, genesis.header);
        let mut blocks: KeyMap<Hash256, Block> = KeyMap::new();
        let mut cumulative_work: KeyMap<Hash256, Work> = KeyMap::new();
        cumulative_work.insert(genesis_hash, work);
        let mut height_index: Vec<Hash256> = Vec::new();
        height_index.push(genesis_hash);
        let mut recent_timestamps: Vec<u64> = Vec::new();
        recent_timestamps.push(genesis.header.timestamp);
        let ghost gblock = genesis;
        blocks.insert(genesis_hash, genesis);

        let c = Chain {
            headers,
            blocks,
            height_index,
            cumulative_work,
            children: KeyMap::new(),
            utxo_set,
            tip: genesis_hash,
            height: 0,
            recent_timestamps,
            fractional_difficulty: INITIAL_DIFFICULTY_FP,
            genesis_time: genesis_timestamp,
            batch_mode: false,
        };
        proof {
            assert(c.active_blocks() =~= seq![gblock]);
            assert(c.active_ts() =~= seq![gblock.header.timestamp]);
            assert(seq![gblock].drop_last() =~= Seq::<Block>::empty());
            assert(seq![gblock].last() == gblock);
            assert(spec_utxo_after(Seq::<Block>::empty()) == Map::<OutPoint, UtxoEntry>::empty());
            assert(c.utxo_set@ == spec_utxo_after(c.active_blocks()));
            assert(c.recent_timestamps@ =~= c.active_ts().subrange(
                c.active_ts().len() - c.kept_ts(),
                c.active_ts().len() as int,
            ));
            reveal(Chain::doms_ok);
            reveal(Chain::genesis_unique_ok);
            reveal(Chain::utxo_ok);
            reveal(Chain::window_ok);
            reveal(Chain::frac_ok);
            reveal(Chain::validity_ok);
            reveal(Chain::children_ok);
            assert(c.wf());
        }
        c
    }

    /// Reset to a fresh genesis-only chain, keeping the network's
    /// genesis timestamp.
    pub fn reset(&mut self)
        ensures
            final(self).wf(),
            final(self).height == 0,
            final(self).genesis_time == old(self).genesis_time,
    {
        let g = self.genesis_time;
        *self = Chain::new(g);
    }
}

/// Exact output sums are bounded by the number of outputs.
proof fn lemma_sum_amounts_bound(outs: Seq<TxOutput>)
    ensures
        0 <= sum_amounts(outs),
        sum_amounts(outs) <= outs.len() * 0xFFFF_FFFF_FFFF_FFFF,
    decreases outs.len(),
{
    if outs.len() > 0 {
        lemma_sum_amounts_bound(outs.drop_last());
        assert((outs.len() - 1) * 0xFFFF_FFFF_FFFF_FFFF + 0xFFFF_FFFF_FFFF_FFFF == outs.len()
            * 0xFFFF_FFFF_FFFF_FFFF) by (nonlinear_arith);
    }
}

/// Exact input sums are bounded by the number of inputs.
proof fn lemma_inputs_sum_bound(utxo: Map<OutPoint, UtxoEntry>, ins: Seq<TxInput>)
    ensures
        0 <= spec_inputs_sum(utxo, ins),
        spec_inputs_sum(utxo, ins) <= ins.len() * 0xFFFF_FFFF_FFFF_FFFF,
    decreases ins.len(),
{
    if ins.len() > 0 {
        lemma_inputs_sum_bound(utxo, ins.drop_last());
        assert((ins.len() - 1) * 0xFFFF_FFFF_FFFF_FFFF + 0xFFFF_FFFF_FFFF_FFFF == ins.len()
            * 0xFFFF_FFFF_FFFF_FFFF) by (nonlinear_arith);
    }
}

impl Chain {
    /// Sum the active unspent amounts referenced by a transaction's
    /// inputs; fails when an input is not in the active UTXO set.
    fn inputs_sum_of(&self, tx: &Transaction) -> (r: Option<u128>)
        requires
            self.utxo_set.wf(),
        ensures
            match r {
                Some(s) => (forall|i: int|
                    0 <= i < tx.inputs@.len() ==> self.utxo_set@.dom().contains(
                        (#[trigger] tx.inputs@[i]).previous_output,
                    )) && s == spec_inputs_sum(self.utxo_set@, tx.inputs@),
                None => exists|i: int|
                    0 <= i < tx.inputs@.len() && !self.utxo_set@.dom().contains(
                        (#[trigger] tx.inputs@[i]).previous_output,
                    ),
            },
    {
        let n = tx.inputs.len();
        let mut acc: u128 = 0;
        let mut i: usize = 0;
        while i < n
            invariant
                i <= n,
                n == tx.inputs@.len(),
                self.utxo_set.wf(),
                forall|j: int|
                    0 <= j < i ==> self.utxo_set@.dom().contains(
                        (#[trigger] tx.inputs@[j]).previous_output,
                    ),
                acc == spec_inputs_sum(self.utxo_set@, tx.inputs@.subrange(0, i as int)),
                acc <= i * 0xFFFF_FFFF_FFFF_FFFFu128,
            decreases n - i,
        {
            proof {
                let pre = tx.inputs@.subrange(0, i + 1);
                assert(pre.drop_last() =~= tx.inputs@.subrange(0, i as int));
                assert(pre.last() == tx.inputs@[i as int]);
                assert((i + 1) * 0xFFFF_FFFF_FFFF_FFFFu128 == i * 0xFFFF_FFFF_FFFF_FFFFu128
                    + 0xFFFF_FFFF_FFFF_FFFFu128) by (nonlinear_arith);
                assert((i + 1) * 0xFFFF_FFFF_FFFF_FFFFu128
                    < 0x1_0000_0000_0000_0000_0000_0000_0000_0000) by (nonlinear_arith)
                    requires
                        i + 1 <= 0x1_0000_0000_0000_0000,
                ;
            }
            let entry = match self.utxo_set.get(&tx.inputs[i].previous_output) {
                Some(e) => *e,
                None => {
                    return None;
                },
            };
            acc = acc + (entry.output.amount as u128);
            i = i + 1;
        }
        proof {
            assert(tx.inputs@.subrange(0, n as int) =~= tx.inputs@);
        }
        Some(acc)
    }

    /// Validate a non-coinbase transaction against the active UTXO set,
    /// as admitted into a block at height `block_height`: inputs exist
    /// and are mature, keys hash to the owners, signatures verify over
    /// the canonical signing hash, and the fee meets the minimum.
    pub fn validate_transaction(&self, tx: &Transaction, block_height: u64) -> (r: Result<
        (),
        BlockError,
    >)
        requires
            self.utxo_set.wf(),
            tx_encodable(*tx),
        ensures
            r is Ok <==> spec_tx_valid(self.utxo_set@, *tx, block_height),
            r is Err ==> r matches Err(BlockError::InvalidTransaction(_)),
    {
        let ghost utxo = self.utxo_set@;
        let ghost h = block_height;
        if tx.inputs.len() == 0 || tx.outputs.len() == 0 {
            let m: &str = "empty inputs or outputs";
            return Err(BlockError::InvalidTransaction(m.to_owned()));
        }
        let n = tx.inputs.len();
        let mut input_sum: u128 = 0;
        let mut i: usize = 0;
        while i < n
            invariant
                i <= n,
                n == tx.inputs@.len(),
                self.utxo_set.wf(),
                utxo == self.utxo_set@,
                h == block_height,
                tx_encodable(*tx),
                forall|j: int| 0 <= j < i ==> spec_input_valid(utxo, *tx, j, h),
                input_sum == spec_inputs_sum(utxo, tx.inputs@.subrange(0, i as int)),
                input_sum <= i * 0xFFFF_FFFF_FFFF_FFFFu128,
            decreases n - i,
        {
            proof {
                let pre = tx.inputs@.subrange(0, i + 1);
                assert(pre.drop_last() =~= tx.inputs@.subrange(0, i as int));
                assert(pre.last() == tx.inputs@[i as int]);
                assert((i + 1) * 0xFFFF_FFFF_FFFF_FFFFu128 == i * 0xFFFF_FFFF_FFFF_FFFFu128
                    + 0xFFFF_FFFF_FFFF_FFFFu128) by (nonlinear_arith);
                assert((i + 1) * 0xFFFF_FFFF_FFFF_FFFFu128
                    < 0x1_0000_0000_0000_0000_0000_0000_0000_0000) by (nonlinear_arith)
                    requires
                        i + 1 <= 0x1_0000_0000_0000_0000,
                ;
            }
            let inp = &tx.inputs[i];
            let entry: UtxoEntry = match self.utxo_set.get(&inp.previous_output) {
                Some(e) => *e,
                None => {
                    proof {
                        assert(!spec_input_valid(utxo, *tx, i as int, h));
                    }
                    let m: &str = "UTXO not found";
                    return Err(BlockError::InvalidTransaction(m.to_owned()));
                },
            };
            if entry.is_coinbase && (block_height as u128) < (entry.height as u128) + (
            COINBASE_MATURITY as u128) {
                proof {
                    assert(!spec_input_valid(utxo, *tx, i as int, h));
                }
                let m: &str = "coinbase not mature";
                return Err(BlockError::InvalidTransaction(m.to_owned()));
            }
            if inp.pubkey.len() != 32 {
                proof {
                    assert(!spec_input_valid(utxo, *tx, i as int, h));
                }
                let m: &str = "bad pubkey length";
                return Err(BlockError::InvalidTransaction(m.to_owned()));
            }
            let claimed = crate::hashes::pubkey_bytes_to_hash(inp.pubkey.as_slice());
            if claimed != entry.output.pubkey_hash {
                proof {
                    assert(!spec_input_valid(utxo, *tx, i as int, h));
                }
                let m: &str = "pubkey mismatch";
                return Err(BlockError::InvalidTransaction(m.to_owned()));
            }
            let sighash = tx_signing_hash_v1(tx, i, &entry.output);
            let msg = sighash.to_bytes();
            if !crate::crypto::verify_signature(
                inp.pubkey.as_slice(),
                msg.as_slice(),
                inp.signature.as_slice(),
            ) {
                proof {
                    assert(!spec_input_valid(utxo, *tx, i as int, h));
                }
                let m: &str = "bad signature";
                return Err(BlockError::InvalidTransaction(m.to_owned()));
            }
            proof {
                assert(spec_input_valid(utxo, *tx, i as int, h));
            }
            input_sum = input_sum + (entry.output.amount as u128);
            i = i + 1;
        }
        proof {
            assert(tx.inputs@.subrange(0, n as int) =~= tx.inputs@);
            lemma_sum_amounts_bound(tx.outputs@);
        }
        let output_sum = outputs_sum_u128(&tx.outputs);
        if output_sum > input_sum {
            let m: &str = "outputs exceed inputs";
            return Err(BlockError::InvalidTransaction(m.to_owned()));
        }
        if input_sum - output_sum < MIN_TX_FEE as u128 {
            let m: &str = "fee too low";
            return Err(BlockError::InvalidTransaction(m.to_owned()));
        }
        Ok(())
    }

    /// Sum the fees of the non-coinbase transactions of a block against
    /// the active UTXO set, saturating at the 128-bit maximum.
    fn calculate_block_fees(&self, block: &Block) -> (r: Result<u128, BlockError>)
        requires
            self.utxo_set.wf(),
            block_encodable(*block),
            block.transactions@.len() >= 1,
        ensures
            match r {
                Ok(f) => {
                    &&& spec_fees_computable(self.utxo_set@, block.transactions@)
                    &&& f == fees_clamped(
                        spec_block_fees(
                            self.utxo_set@,
                            block.transactions@,
                            block.transactions@.len() as int,
                        ),
                    )
                },
                Err(e) => {
                    &&& !spec_fees_computable(self.utxo_set@, block.transactions@)
                    &&& e is InvalidTransaction
                },
            },
    {
        let ghost utxo = self.utxo_set@;
        let ghost txs = block.transactions@;
        let n = block.transactions.len();
        let mut total: u128 = 0;
        let mut t: usize = 1;
        while t < n
            invariant
                1 <= t <= n,
                n == block.transactions@.len(),
                txs == block.transactions@,
                self.utxo_set.wf(),
                utxo == self.utxo_set@,
                block_encodable(*block),
                forall|s: int|
                    1 <= s < t ==> {
                        &&& (forall|i: int|
                            0 <= i < (#[trigger] txs[s]).inputs@.len() ==> utxo.dom().contains(
                                #[trigger] txs[s].inputs@[i].previous_output,
                            ))
                        &&& spec_inputs_sum(utxo, txs[s].inputs@) >= sum_amounts(txs[s].outputs@)
                    },
                total == fees_clamped(spec_block_fees(utxo, txs, t as int)),
            decreases n - t,
        {
            let tx = &block.transactions[t];
            let in_sum = match self.inputs_sum_of(tx) {
                Some(s) => s,
                None => {
                    proof {
                        assert(!spec_fees_computable(utxo, txs));
                    }
                    let m: &str = "UTXO not found for fee calculation";
                    return Err(BlockError::InvalidTransaction(m.to_owned()));
                },
            };
            let out_sum = outputs_sum_u128(&tx.outputs);
            if out_sum > in_sum {
                proof {
                    assert(!spec_fees_computable(utxo, txs));
                }
                let m: &str = "outputs exceed inputs";
                return Err(BlockError::InvalidTransaction(m.to_owned()));
            }
            let fee = in_sum - out_sum;
            if u128::MAX - total < fee {
                total = u128::MAX;
            } else {
                total = total + fee;
            }
            proof {
                lemma_inputs_sum_bound(utxo, txs[t as int].inputs@);
                lemma_sum_amounts_bound(txs[t as int].outputs@);
                lemma_block_fees_nonneg(utxo, txs, t as int);
                assert(spec_block_fees(utxo, txs, t + 1) == spec_block_fees(utxo, txs, t as int)
                    + spec_inputs_sum(utxo, txs[t as int].inputs@) - sum_amounts(
                    txs[t as int].outputs@,
                ));
            }
            t = t + 1;
        }
        proof {
            assert(forall|s: int|
                1 <= s < txs.len() ==> {
                    &&& (forall|i: int|
                        0 <= i < (#[trigger] txs[s]).inputs@.len() ==> utxo.dom().contains(
                            #[trigger] txs[s].inputs@[i].previous_output,
                        ))
                    &&& spec_inputs_sum(utxo, txs[s].inputs@) >= sum_amounts(txs[s].outputs@)
                });
        }
        Ok(total)
    }
}

/// Fee totals are nonnegative once every counted transaction's inputs
/// cover its outputs.
proof fn lemma_block_fees_nonneg(utxo: Map<OutPoint, UtxoEntry>, txs: Seq<Transaction>, t: int)
    requires
        forall|s: int|
            1 <= s < t ==> spec_inputs_sum(utxo, (#[trigger] txs[s]).inputs@) >= sum_amounts(
                txs[s].outputs@,
            ),
    ensures
        spec_block_fees(utxo, txs, t) >= 0,
    decreases t,
{
    if t > 1 {
        lemma_block_fees_nonneg(utxo, txs, t - 1);
    }
}

/// Clamp an exact fee total into the 128-bit range.
pub open spec fn fees_clamped(v: int) -> u128 {
    if v > u128::MAX {
        u128::MAX
    } else if v < 0 {
        0u128
    } else {
        v as u128
    }
}


/// The validity conjunct depends only on the header and block maps.
proof fn lemma_validity_transfer(a: Chain, b: Chain)
    requires
        a.headers@ == b.headers@,
        a.blocks@ == b.blocks@,
        a.validity_ok(),
    ensures
        b.validity_ok(),
{
    reveal(Chain::validity_ok);
}

/// The child-link conjunct depends only on the header and child maps.
proof fn lemma_children_transfer(a: Chain, b: Chain)
    requires
        a.headers@ == b.headers@,
        a.children@ == b.children@,
        a.children_ok(),
    ensures
        b.children_ok(),
{
    reveal(Chain::children_ok);
}

/// The domain conjunct depends only on the three block-keyed maps.
proof fn lemma_doms_transfer(a: Chain, b: Chain)
    requires
        a.headers@ == b.headers@,
        a.blocks@ == b.blocks@,
        a.cumulative_work@ == b.cumulative_work@,
        a.doms_ok(),
    ensures
        b.doms_ok(),
{
    reveal(Chain::doms_ok);
}

/// The genesis-uniqueness conjunct depends only on the headers and the
/// genesis entry of the index.
proof fn lemma_genesis_unique_transfer(a: Chain, b: Chain)
    requires
        a.headers@ == b.headers@,
        a.height_index@.len() > 0,
        b.height_index@.len() > 0,
        a.height_index@[0] == b.height_index@[0],
        a.genesis_unique_ok(),
    ensures
        b.genesis_unique_ok(),
{
    reveal(Chain::genesis_unique_ok);
}

// ─── Acceptance decision ─────────────────────────────────────────────


/// The outcome of offering a block to the chain: the first matching
/// rejection in check order, or which of the three acceptance shapes
/// applies.
pub enum BlockDecision {
    Duplicate,
    Orphan,
    BadHeight,
    BadTimestamp,
    TooFarInFuture,
    BadDifficulty,
    BadPow,
    BadMerkle,
    TooLarge,
    Empty,
    NoCoinbase,
    RejectTransaction,
    RejectCoinbaseAmount,
    AcceptTip,
    AcceptSide,
    AcceptReorg,
}

impl BlockDecision {
    /// Whether the decision accepts the block.
    pub open spec fn is_accept(self) -> bool {
        self is AcceptTip || self is AcceptSide || self is AcceptReorg
    }
}

/// The acceptance decision for a block, mirroring the ordered checks of
/// `add_block`.
pub open spec fn spec_block_decision(c: Chain, b: Block, now: u64) -> BlockDecision {
    let hash = spec_header_pow_hash(b.header);
    let hs = c.headers@;
    let p = b.header.prev_hash;
    if c.blocks@.dom().contains(hash) {
        BlockDecision::Duplicate
    } else if !hs.dom().contains(p) {
        BlockDecision::Orphan
    } else if b.header.height != hs[p].height + 1 {
        BlockDecision::BadHeight
    } else if b.header.timestamp <= hs[p].timestamp {
        BlockDecision::BadTimestamp
    } else if b.header.timestamp != hs[p].timestamp + 1 && b.header.timestamp > now + 7200 {
        BlockDecision::TooFarInFuture
    } else if b.header.difficulty_target != spec_expected_difficulty(hs, p) {
        BlockDecision::BadDifficulty
    } else if !spec_meets_difficulty(b.header) {
        BlockDecision::BadPow
    } else if b.header.merkle_root != merkle_root_of(block_txids(b.transactions@)) {
        BlockDecision::BadMerkle
    } else if block_enc(b).len() > MAX_BLOCK_SIZE {
        BlockDecision::TooLarge
    } else if b.transactions@.len() == 0 {
        BlockDecision::Empty
    } else if !spec_is_coinbase(b.transactions@[0]) {
        BlockDecision::NoCoinbase
    } else if p == c.tip {
        let txs = b.transactions@;
        if !spec_fees_computable(c.utxo_set@, txs) {
            BlockDecision::RejectTransaction
        } else if sum_amounts(txs[0].outputs@) > spec_block_reward(b.header.height)
            + spec_block_fees(c.utxo_set@, txs, txs.len() as int) {
            BlockDecision::RejectCoinbaseAmount
        } else if exists|t: int|
            1 <= t < txs.len() && !spec_tx_valid(c.utxo_set@, #[trigger] txs[t], b.header.height) {
            BlockDecision::RejectTransaction
        } else {
            BlockDecision::AcceptTip
        }
    } else {
        if work_val(c.cumulative_work@[c.tip]) < sat_add_val(
            work_val(c.cumulative_work@[p]),
            pow2(b.header.difficulty_target as nat),
        ) {
            BlockDecision::AcceptReorg
        } else {
            BlockDecision::AcceptSide
        }
    }
}


/// The timestamp window kept by the engine: the last entries of a
/// timestamp list, up to ten more than the difficulty window.
pub open spec fn spec_window(ts: Seq<u64>) -> Seq<u64> {
    let kept: int = if ts.len() > 70 {
        70
    } else {
        ts.len() as int
    };
    ts.subrange(ts.len() - kept, ts.len() as int)
}

/// Pushing a timestamp and truncating the kept window tracks the window
/// of the extended list.
pub proof fn lemma_window_tail(ts_old: Seq<u64>, t: u64)
    ensures
        ({
            let pushed = spec_window(ts_old).push(t);
            let trunc = pushed.subrange(
                if pushed.len() > 70 {
                    pushed.len() - 70
                } else {
                    0
                },
                pushed.len() as int,
            );
            trunc == spec_window(ts_old.push(t))
        }),
{
    let ts_new = ts_old.push(t);
    let pushed = spec_window(ts_old).push(t);
    let trunc = pushed.subrange(
        if pushed.len() > 70 {
            pushed.len() - 70
        } else {
            0
        },
        pushed.len() as int,
    );
    if ts_new.len() <= 70 {
        assert(spec_window(ts_old) =~= ts_old);
        assert(trunc =~= pushed);
        assert(pushed =~= ts_new);
        assert(spec_window(ts_new) =~= ts_new);
    } else {
        assert(trunc =~= spec_window(ts_new));
    }
}

/// One retarget step over the kept window advances the full replay.
pub proof fn lemma_replay_step(ts_old: Seq<u64>, t: u64, frac_old: u64)
    requires
        frac_old == replay_frac(ts_old),
        ts_old.len() >= 1,
    ensures
        spec_next_difficulty_fp(frac_old, spec_window(ts_old.push(t))) == replay_frac(
            ts_old.push(t),
        ),
{
    let ts_new = ts_old.push(t);
    let n_new = ts_new.len() as int;
    assert(ts_new.drop_last() =~= ts_old);
    assert(replay_frac(ts_new) == spec_next_difficulty_fp(frac_old, ts_new));
    let kept: int = if n_new > 70 {
        70
    } else {
        n_new
    };
    if n_new >= 60 {
        lemma_next_fp_suffix(frac_old, ts_new, kept);
    } else {
        assert(spec_window(ts_new) =~= ts_new);
    }
}

// ─── Commit helpers ──────────────────────────────────────────────────

/// The child list of a parent, or empty when none is recorded.
pub open spec fn child_list(c: Map<Hash256, Vec<Hash256>>, p: Hash256) -> Seq<Hash256> {
    if c.dom().contains(p) {
        c[p]@
    } else {
        Seq::empty()
    }
}

/// Copy a vector of hashes.
fn copy_hashes(src: &Vec<Hash256>) -> (r: Vec<Hash256>)
    ensures
        r@ == src@,
{
    let mut out: Vec<Hash256> = Vec::new();
    let n = src.len();
    let mut i: usize = 0;
    while i < n
        invariant
            i <= n,
            n == src@.len(),
            out@ == src@.subrange(0, i as int),
        decreases n - i,
    {
        out.push(src[i]);
        proof {
            assert(out@ =~= src@.subrange(0, i + 1));
        }
        i = i + 1;
    }
    proof {
        assert(src@.subrange(0, n as int) =~= src@);
    }
    out
}

/// Keep only the last `max` entries of a timestamp vector.
fn keep_last(v: &mut Vec<u64>, max: usize)
    requires
        max >= 1,
    ensures
        final(v)@ == old(v)@.subrange(
            if old(v)@.len() > max {
                old(v)@.len() - max
            } else {
                0
            },
            old(v)@.len() as int,
        ),
{
    let n = v.len();
    if n <= max {
        proof {
            assert(v@.subrange(0, n as int) =~= v@);
        }
        return ;
    }
    let start = n - max;
    let mut out: Vec<u64> = Vec::new();
    let mut i: usize = start;
    while i < n
        invariant
            start <= i <= n,
            n == v@.len(),
            start == n - max,
            out@ == v@.subrange(start as int, i as int),
        decreases n - i,
    {
        out.push(v[i]);
        proof {
            assert(out@ =~= v@.subrange(start as int, i + 1));
        }
        i = i + 1;
    }
    *v = out;
}

impl Chain {
    /// Store a structurally validated block in the header, block, work
    /// and child indexes, leaving the active chain untouched.
    #[verifier::rlimit(40)]
    fn store_block(&mut self, block: Block, block_hash: Hash256, work: Work)
        requires
            old(self).wf_core(),
            block_hash == spec_header_pow_hash(block.header),
            !old(self).headers@.dom().contains(block_hash),
            spec_block_structural_valid(old(self).headers@, block),
        ensures
            final(self).wf_core(),
            final(self).headers@ == old(self).headers@.insert(block_hash, block.header),
            final(self).blocks@ == old(self).blocks@.insert(block_hash, block),
            final(self).cumulative_work@ == old(self).cumulative_work@.insert(block_hash, work),
            final(self).children@.dom() == old(self).children@.dom().insert(
                block.header.prev_hash,
            ),
            final(self).children@[block.header.prev_hash]@ == child_list(
                old(self).children@,
                block.header.prev_hash,
            ).push(block_hash),
            forall|p: Hash256|
                #[trigger] old(self).children@.dom().contains(p) && p != block.header.prev_hash
                    ==> final(self).children@[p] == old(self).children@[p],
            final(self).height_index@ == old(self).height_index@,
            final(self).tip == old(self).tip,
            final(self).height == old(self).height,
            final(self).utxo_set@ == old(self).utxo_set@,
            final(self).utxo_set.utxos.pairs() == old(self).utxo_set.utxos.pairs(),
            final(self).recent_timestamps@ == old(self).recent_timestamps@,
            final(self).fractional_difficulty == old(self).fractional_difficulty,
            final(self).genesis_time == old(self).genesis_time,
            final(self).batch_mode == old(self).batch_mode,
            final(self).active_blocks() == old(self).active_blocks(),
            final(self).active_ts() == old(self).active_ts(),
    {
        let ghost old_hs = self.headers@;
        let prev = block.header.prev_hash;
        let mut kids: Vec<Hash256> = match self.children.get(&prev) {
            Some(v) => copy_hashes(v),
            None => Vec::new(),
        };
        kids.push(block_hash);
        proof {
            assert(kids@ =~= child_list(old(self).children@, prev).push(block_hash));
        }
        self.children.insert(prev, kids);
        self.headers.insert(block_hash, block.header);
        self.cumulative_work.insert(block_hash, work);
        let ghost the_block = block;
        self.blocks.insert(block_hash, block);
        proof {
            let hs2 = self.headers@;
            assert(hs2 == old_hs.insert(block_hash, the_block.header));
            // Linkage still holds with the new header in place.
            assert(headers_linked(hs2)) by {
                assert forall|k: Hash256|
                    #[trigger] hs2.dom().contains(k) && hs2[k].height > 0 implies {
                    &&& hs2.dom().contains(hs2[k].prev_hash)
                    &&& hs2[hs2[k].prev_hash].height + 1 == hs2[k].height
                    &&& hs2[hs2[k].prev_hash].timestamp < hs2[k].timestamp
                } by {
                    if k != block_hash {
                        assert(old_hs.dom().contains(k));
                    }
                }
            }
            // The active chain reads the same blocks as before.
            assert(self.active_blocks() =~= old(self).active_blocks()) by {
                assert forall|h: int|
                    0 <= h < self.height_index@.len() implies self.blocks@[#[trigger] self.height_index@[h]]
                    == old(self).blocks@[self.height_index@[h]] by {
                    assert(old(self).headers@.dom().contains(self.height_index@[h]));
                }
            }
            assert(self.active_ts() =~= old(self).active_ts());
            assert(self.validity_ok()) by {
                reveal(Chain::validity_ok);
                // Old blocks keep their structural validity: their
                // ancestry is untouched by a fresh insertion.
                assert forall|k: Hash256|
                    #[trigger] hs2.dom().contains(k) && hs2[k].height > 0 implies spec_block_structural_valid(
                    hs2,
                    self.blocks@[k],
                ) by {
                    if k == block_hash {
                        lemma_ancestry_insert_fresh(old_hs, block_hash, the_block.header, prev);
                        assert(spec_block_structural_valid(hs2, the_block));
                    } else {
                        assert(old_hs.dom().contains(k));
                        let ob = old(self).blocks@[k];
                        let op = ob.header.prev_hash;
                        assert(spec_block_structural_valid(old_hs, ob));
                        lemma_ancestry_insert_fresh(old_hs, block_hash, the_block.header, op);
                        assert(spec_block_structural_valid(hs2, ob));
                    }
                }
            }
            assert(self.maps_ok());
            assert(self.index_ok()) by {
                assert(forall|h: int|
                    0 <= h < self.height_index@.len() ==> old_hs.dom().contains(
                        #[trigger] self.height_index@[h],
                    ));
            }
            assert(self.doms_ok()) by {
                reveal(Chain::doms_ok);
                assert(self.blocks@.dom() =~= self.headers@.dom());
                assert(self.cumulative_work@.dom() =~= self.headers@.dom());
            }
            assert(self.genesis_unique_ok()) by {
                reveal(Chain::genesis_unique_ok);
            }
            assert(self.utxo_ok()) by {
                reveal(Chain::utxo_ok);
            }
            assert(self.window_ok()) by {
                reveal(Chain::window_ok);
            }
            assert(self.frac_ok()) by {
                reveal(Chain::frac_ok);
            }
            assert(is_genesis_block(self.blocks@[self.height_index@[0]], self.genesis_time));
            assert(self.children_ok()) by {
                reveal(Chain::children_ok);
                assert forall|p: Hash256, j: int|
                    #[trigger] self.children@.dom().contains(p) && 0 <= j
                        < self.children@[p]@.len() implies self.headers@.dom().contains(
                    #[trigger] self.children@[p]@[j],
                ) && self.headers@[self.children@[p]@[j]].prev_hash == p by {
                    if p == prev && j == self.children@[p]@.len() - 1 {
                    } else if p == prev {
                        assert(self.children@[p]@[j] == child_list(old(self).children@, prev)[j]);
                        if old(self).children@.dom().contains(prev) {
                            assert(old(self).headers@.dom().contains(self.children@[p]@[j]));
                        }
                    } else {
                        assert(old(self).children@.dom().contains(p));
                        assert(old(self).headers@.dom().contains(self.children@[p]@[j]));
                    }
                }
            }
        }
    }

    /// Advance the tip over a stored block that extends it: apply its
    /// transactions to the UTXO set, extend the height index and the
    /// timestamp window, and recompute the cached difficulty.
    #[verifier::rlimit(40)]
    fn advance_tip(&mut self, block_hash: Hash256)
        requires
            old(self).wf_core(),
            old(self).headers@.dom().contains(block_hash),
            old(self).blocks@[block_hash].header.prev_hash == old(self).tip,
            old(self).blocks@[block_hash].header.height == old(self).height + 1,
        ensures
            final(self).wf_core(),
            final(self).tip == block_hash,
            final(self).height == old(self).height + 1,
            final(self).height_index@ == old(self).height_index@.push(block_hash),
            final(self).utxo_set@ == spec_apply_block(
                old(self).utxo_set@,
                old(self).blocks@[block_hash],
            ),
            final(self).headers@ == old(self).headers@,
            final(self).blocks@ == old(self).blocks@,
            final(self).cumulative_work@ == old(self).cumulative_work@,
            final(self).children@ == old(self).children@,
            final(self).genesis_time == old(self).genesis_time,
            final(self).batch_mode == old(self).batch_mode,
    {
        let ghost the_block = old(self).blocks@[block_hash];
        proof {
            reveal(Chain::doms_ok);
            assert(old(self).headers@[block_hash] == the_block.header);
            assert(block_encodable(the_block)) by {
                reveal(Chain::validity_ok);
                assert(old(self).headers@[block_hash].height > 0);
                assert(spec_block_structural_valid(old(self).headers@, the_block));
            }
        }
        let block = self.blocks.get(&block_hash).unwrap();
        let ts: u64 = block.header.timestamp;
        let new_height: u64 = block.header.height;
        apply_block_to_utxo(&mut self.utxo_set, block);
        self.recent_timestamps.push(ts);
        keep_last(&mut self.recent_timestamps, DIFFICULTY_WINDOW + 10);
        self.fractional_difficulty = calculate_next_difficulty_fractional(
            self.fractional_difficulty,
            &self.recent_timestamps,
        );
        self.height_index.push(block_hash);
        self.tip = block_hash;
        self.height = new_height;
        proof {
            let oldc = *old(self);
            let newc = *self;
            let active_old = oldc.active_blocks();
            let ts_old = oldc.active_ts();
            let active_new = newc.active_blocks();
            let ts_new = newc.active_ts();
            assert(active_new =~= active_old.push(the_block)) by {
                assert forall|h: int|
                    0 <= h < oldc.height_index@.len() implies newc.blocks@[#[trigger] newc.height_index@[h]]
                    == oldc.blocks@[oldc.height_index@[h]] by {}
            }
            assert(ts_new =~= ts_old.push(the_block.header.timestamp));
            // UTXO replay extends by one block.
            assert(active_new.drop_last() =~= active_old);
            assert(newc.utxo_ok()) by {
                reveal(Chain::utxo_ok);
                assert(newc.utxo_set@ == spec_utxo_after(active_new));
            }
            // The timestamp window is the tail of the new active list,
            // and one retarget step advances the full replay.
            let t = the_block.header.timestamp;
            let pushed = oldc.recent_timestamps@.push(t);
            assert(newc.recent_timestamps@ == pushed.subrange(
                if pushed.len() > 70 {
                    pushed.len() - 70
                } else {
                    0
                },
                pushed.len() as int,
            ));
            assert(newc.window_ok()) by {
                reveal(Chain::window_ok);
                assert(oldc.recent_timestamps@ == spec_window(ts_old));
                lemma_window_tail(ts_old, t);
                assert(newc.recent_timestamps@ == spec_window(ts_new));
            }
            assert(newc.frac_ok()) by {
                reveal(Chain::frac_ok);
                reveal(Chain::window_ok);
                assert(oldc.recent_timestamps@ == spec_window(ts_old));
                lemma_window_tail(ts_old, t);
                assert(newc.recent_timestamps@ == spec_window(ts_new));
                lemma_replay_step(ts_old, t, oldc.fractional_difficulty);
            }
            assert(newc.maps_ok());
            assert(newc.index_ok());
            lemma_doms_transfer(oldc, newc);
            lemma_genesis_unique_transfer(oldc, newc);
            lemma_validity_transfer(oldc, newc);
            assert(is_genesis_block(newc.blocks@[newc.height_index@[0]], newc.genesis_time));
            lemma_children_transfer(oldc, newc);
        }
    }

    /// Rebuild the active chain onto a stored tip candidate: replay its
    /// ancestry from genesis into a fresh UTXO set, height index,
    /// timestamp window and cached difficulty.
    #[verifier::rlimit(40)]
    fn reorg_to(&mut self, new_tip: Hash256)
        requires
            old(self).wf_core(),
            old(self).headers@.dom().contains(new_tip),
            forall|k: Hash256|
                #[trigger] old(self).cumulative_work@.dom().contains(k) ==> work_val(
                    old(self).cumulative_work@[new_tip],
                ) >= work_val(old(self).cumulative_work@[k]),
        ensures
            final(self).wf(),
            // The rebuilt UTXO set is exactly the replay of the new
            // active chain from genesis.
            final(self).utxo_set@ == spec_utxo_after(final(self).active_blocks()),
            final(self).tip == new_tip,
            final(self).height == old(self).headers@[new_tip].height,
            final(self).headers@ == old(self).headers@,
            final(self).blocks@ == old(self).blocks@,
            final(self).cumulative_work@ == old(self).cumulative_work@,
            final(self).children@ == old(self).children@,
            final(self).genesis_time == old(self).genesis_time,
            final(self).batch_mode == old(self).batch_mode,
    {
        let ghost hs = self.headers@;
        let anc = self.ancestry_of(&new_tip);
        proof {
            lemma_ancestry_shape(hs, new_tip);
            reveal(Chain::doms_ok);
        }
        // Rebuild the UTXO set by replaying every block from genesis.
        let mut new_utxo = UtxoSet::new();
        let n = anc.len();
        let mut h: usize = 0;
        while h < n
            invariant
                h <= n,
                n == anc@.len(),
                self.blocks.wf(),
                self.headers@ == hs,
                self.blocks@ == old(self).blocks@,
                old(self).wf_core(),
                anc@ == ancestry_hashes(hs, new_tip),
                forall|j: int| 0 <= j < n ==> hs.dom().contains(#[trigger] anc@[j]),
                self.blocks@.dom() == hs.dom(),
                new_utxo.wf(),
                new_utxo@ == spec_utxo_after(
                    anc@.subrange(0, h as int).map_values(|x: Hash256| self.blocks@[x]),
                ),
            decreases n - h,
        {
            let blk = self.blocks.get(&anc[h]).unwrap();
            proof {
                reveal(Chain::validity_ok);
                reveal(Chain::genesis_unique_ok);
                let k = anc@[h as int];
                assert(hs[k].height > 0 ==> spec_block_structural_valid(hs, self.blocks@[k]));
                if hs[k].height == 0 {
                    assert(k == old(self).height_index@[0]);
                    assert(is_genesis_block(self.blocks@[k], old(self).genesis_time));
                }
                assert(block_encodable(self.blocks@[k]));
            }
            apply_block_to_utxo(&mut new_utxo, blk);
            proof {
                let mapped = anc@.subrange(0, h + 1).map_values(|x: Hash256| self.blocks@[x]);
                assert(mapped.drop_last() =~= anc@.subrange(0, h as int).map_values(
                    |x: Hash256| self.blocks@[x],
                ));
                assert(mapped.last() == self.blocks@[anc@[h as int]]);
            }
            h = h + 1;
        }
        proof {
            assert(anc@.subrange(0, n as int) =~= anc@);
        }
        // Rebuild timestamps and the cached difficulty from genesis.
        let ts_all = self.ancestry_timestamps_of(&new_tip);
        let frac = replay_difficulty_fp(&ts_all);
        let mut recent = ts_all;
        keep_last(&mut recent, DIFFICULTY_WINDOW + 10);
        let new_height = self.headers.get(&new_tip).unwrap().height;

        self.utxo_set = new_utxo;
        self.height_index = anc;
        self.recent_timestamps = recent;
        self.fractional_difficulty = frac;
        self.tip = new_tip;
        self.height = new_height;

        proof {
            let newc = *self;
            let oldc = *old(self);
            assert(newc.height_index@.len() == hs[new_tip].height + 1);
            // Heights, links and domains along the new index.
            assert forall|j: int| 0 <= j < newc.height_index@.len() implies {
                &&& newc.headers@.dom().contains(#[trigger] newc.height_index@[j])
                &&& newc.headers@[newc.height_index@[j]].height == j
                &&& (j > 0 ==> newc.headers@[newc.height_index@[j]].prev_hash
                    == newc.height_index@[j - 1])
            } by {}
            // The new index starts at the same genesis.
            assert(hs[newc.height_index@[0]].height == 0);
            assert(newc.height_index@[0] == oldc.height_index@[0]) by {
                reveal(Chain::genesis_unique_ok);
            }
            // Active views line up with the rebuilt state.
            assert(newc.active_blocks() =~= ancestry_hashes(hs, new_tip).map_values(
                |x: Hash256| newc.blocks@[x],
            ));
            assert(newc.active_ts() =~= ancestry_ts(hs, new_tip));
            assert(newc.utxo_set@ == spec_utxo_after(newc.active_blocks()));
            let tsn = newc.active_ts();
            let kept = newc.kept_ts();
            assert(newc.maps_ok());
            assert(newc.index_ok());
            lemma_doms_transfer(oldc, newc);
            lemma_genesis_unique_transfer(oldc, newc);
            assert(newc.utxo_ok()) by {
                reveal(Chain::utxo_ok);
            }
            assert(newc.window_ok()) by {
                reveal(Chain::window_ok);
                assert(newc.recent_timestamps@ =~= tsn.subrange(
                    tsn.len() - kept,
                    tsn.len() as int,
                ));
            }
            assert(newc.frac_ok()) by {
                reveal(Chain::frac_ok);
                assert(newc.fractional_difficulty == replay_frac(tsn));
            }
            lemma_validity_transfer(oldc, newc);
            assert(is_genesis_block(newc.blocks@[newc.height_index@[0]], newc.genesis_time));
            lemma_children_transfer(oldc, newc);
            assert(newc.tip_work_max());
            assert(newc.utxo_set@ == spec_utxo_after(newc.active_blocks())) by {
                reveal(Chain::utxo_ok);
            }
        }
    }
}

impl Chain {
    /// Validate every non-coinbase transaction of a block for the given
    /// target height.
    fn validate_block_txs(&self, block: &Block, h: u64) -> (r: Result<(), BlockError>)
        requires
            self.utxo_set.wf(),
            block_encodable(*block),
        ensures
            r is Ok <==> (forall|t: int|
                1 <= t < block.transactions@.len() ==> spec_tx_valid(
                    self.utxo_set@,
                    #[trigger] block.transactions@[t],
                    h,
                )),
            r is Err ==> r matches Err(BlockError::InvalidTransaction(_)),
    {
        let n = block.transactions.len();
        let mut t: usize = 1;
        while t < n
            invariant
                1 <= t <= n || (n == 0 && t == 1),
                n == block.transactions@.len(),
                self.utxo_set.wf(),
                block_encodable(*block),
                forall|s: int|
                    1 <= s < t ==> spec_tx_valid(self.utxo_set@, #[trigger] block.transactions@[s], h),
            decreases n - t,
        {
            match self.validate_transaction(&block.transactions[t], h) {
                Ok(_) => {},
                Err(e) => {
                    return Err(e);
                },
            }
            t = t + 1;
        }
        Ok(())
    }

    /// Offer a block to the chain.
    ///
    /// The checks run in a fixed order and the first failure is
    /// returned: duplicate, unknown parent, wrong height, non-increasing
    /// timestamp, timestamp too far past `now` (unless minimal), wrong
    /// difficulty for the parent's ancestry, insufficient proof of work,
    /// wrong merkle root, oversized encoding, no transactions, or a
    /// missing leading coinbase. A block extending the tip is then fully
    /// validated against the UTXO set and committed; a side-chain block
    /// is stored, and adopted through a reorganization when it carries
    /// strictly more cumulative work than the tip.
    #[verifier::rlimit(70)]
    pub fn add_block(&mut self, block: Block, now: u64) -> (r: Result<Hash256, BlockError>)
        requires
            old(self).wf(),
            block_encodable(block),
        ensures
            final(self).wf(),
            final(self).genesis_time == old(self).genesis_time,
            final(self).batch_mode == old(self).batch_mode,
            ({
                let d = spec_block_decision(*old(self), block, now);
                let hash = spec_header_pow_hash(block.header);
                match r {
                    Ok(h) => {
                        &&& h == hash
                        &&& d.is_accept()
                        &&& final(self).headers@ == old(self).headers@.insert(hash, block.header)
                        &&& final(self).blocks@ == old(self).blocks@.insert(hash, block)
                        // Cumulative work and the child index are set on
                        // insertion: the new block's work is its
                        // parent's plus `2^bits`, and it is appended to
                        // its parent's child list.
                        &&& final(self).cumulative_work@ == old(self).cumulative_work@.insert(
                            hash,
                            final(self).cumulative_work@[hash],
                        )
                        &&& work_val(final(self).cumulative_work@[hash]) == sat_add_val(
                            work_val(old(self).cumulative_work@[block.header.prev_hash]),
                            pow2(block.header.difficulty_target as nat),
                        )
                        &&& final(self).children@.dom() == old(self).children@.dom().insert(
                            block.header.prev_hash,
                        )
                        &&& final(self).children@[block.header.prev_hash]@ == child_list(
                            old(self).children@,
                            block.header.prev_hash,
                        ).push(hash)
                        &&& (forall|p: Hash256|
                            #[trigger] old(self).children@.dom().contains(p) && p
                                != block.header.prev_hash ==> final(self).children@[p] == old(
                                self,
                            ).children@[p])
                        &&& (d is AcceptTip ==> {
                            &&& final(self).tip == hash
                            &&& final(self).height == old(self).height + 1
                            &&& final(self).height_index@ == old(self).height_index@.push(hash)
                            &&& final(self).utxo_set@ == spec_apply_block(
                                old(self).utxo_set@,
                                block,
                            )
                        })
                        &&& (d is AcceptSide ==> {
                            &&& final(self).tip == old(self).tip
                            &&& final(self).height == old(self).height
                            &&& final(self).height_index@ == old(self).height_index@
                            &&& final(self).utxo_set@ == old(self).utxo_set@
                        })
                        &&& (d is AcceptReorg ==> final(self).tip == hash && final(self).height
                            == block.header.height)
                    },
                    Err(e) => {
                        &&& *final(self) == *old(self)
                        &&& !d.is_accept()
                        &&& (e is DuplicateBlock <==> d is Duplicate)
                        &&& (e is OrphanBlock <==> d is Orphan)
                        &&& (e is InvalidHeight <==> d is BadHeight)
                        &&& (e is InvalidTimestamp <==> d is BadTimestamp)
                        &&& (e is TimestampTooFarInFuture <==> d is TooFarInFuture)
                        &&& (e is InvalidDifficulty <==> d is BadDifficulty)
                        &&& (e is InsufficientPoW <==> d is BadPow)
                        &&& (e is InvalidMerkleRoot <==> d is BadMerkle)
                        &&& (e is BlockTooLarge <==> d is TooLarge)
                        &&& (e is NoTransactions <==> d is Empty)
                        &&& (e is NoCoinbase <==> d is NoCoinbase)
                        &&& (e is InvalidCoinbaseAmount <==> d is RejectCoinbaseAmount)
                        &&& (e is InvalidTransaction <==> d is RejectTransaction)
                    },
                }
            }),
    {
        let ghost oldc = *old(self);
        let ghost d = spec_block_decision(oldc, block, now);
        let block_hash = block.header.hash();

        // 1. Duplicate.
        if self.blocks.contains_key(&block_hash) {
            return Err(BlockError::DuplicateBlock);
        }
        // 2. Parent must be known.
        let parent: BlockHeader = match self.headers.get(&block.header.prev_hash) {
            Some(p) => *p,
            None => {
                return Err(BlockError::OrphanBlock);
            },
        };
        // 3. Height must be parent's plus one.
        if (block.header.height as u128) != (parent.height as u128) + 1 {
            return Err(BlockError::InvalidHeight);
        }
        // 4. Timestamp must increase; far-future stamps are rejected
        // unless minimal.
        if block.header.timestamp <= parent.timestamp {
            return Err(BlockError::InvalidTimestamp);
        }
        let is_minimal = block.header.timestamp == parent.timestamp + 1;
        if !is_minimal && (block.header.timestamp as u128) > (now as u128) + 7200 {
            return Err(BlockError::TimestampTooFarInFuture);
        }
        // 5. Difficulty must match the expectation for this parent: the
        // cached value at the tip, a full ancestry replay elsewhere.
        let extends_tip = block.header.prev_hash == self.tip;
        let expected_diff: u32 = if extends_tip {
            proof {
                reveal(Chain::frac_ok);
                let index = self.height_index@;
                lemma_active_ancestry(self.headers@, index, index.len() - 1);
                assert(index.subrange(0, index.len() as int) =~= index);
                assert(ancestry_ts(self.headers@, self.tip) =~= self.active_ts());
            }
            self.next_difficulty()
        } else {
            self.difficulty_for_block_on_parent(&block.header.prev_hash)
        };
        proof {
            assert(expected_diff == spec_expected_difficulty(
                self.headers@,
                block.header.prev_hash,
            ));
        }
        if block.header.difficulty_target != expected_diff {
            return Err(
                BlockError::InvalidDifficulty {
                    expected: expected_diff,
                    got: block.header.difficulty_target,
                },
            );
        }
        // 6. The proof-of-work hash must meet the declared difficulty.
        let lz = leading_zero_bits(&block_hash);
        if lz < block.header.difficulty_target {
            return Err(BlockError::InsufficientPoW);
        }
        // 7. The merkle root must match the transactions.
        if !block.validate_merkle_root() {
            return Err(BlockError::InvalidMerkleRoot);
        }
        // 8. The encoded block must fit the size cap.
        if block.size() > MAX_BLOCK_SIZE {
            return Err(BlockError::BlockTooLarge);
        }
        // 9. There must be transactions, led by a coinbase.
        if block.transactions.len() == 0 {
            return Err(BlockError::NoTransactions);
        }
        if !block.transactions[0].is_coinbase() {
            return Err(BlockError::NoCoinbase);
        }

        proof {
            reveal(Chain::doms_ok);
        }
        let parent_work: Work = *self.cumulative_work.get(&block.header.prev_hash).unwrap();
        let block_work = Work::from_difficulty(block.header.difficulty_target);
        let new_work = parent_work.sat_add(&block_work);

        if extends_tip {
            // Full UTXO validation before committing.
            let total_fees: u128 = match self.calculate_block_fees(&block) {
                Ok(f) => f,
                Err(e) => {
                    proof {
                        assert(d is RejectTransaction);
                    }
                    return Err(e);
                },
            };
            let reward = block_reward(block.header.height);
            let cb_sum = outputs_sum_u128(&block.transactions[0].outputs);
            let ghost exact_fees = spec_block_fees(
                self.utxo_set@,
                block.transactions@,
                block.transactions@.len() as int,
            );
            proof {
                lemma_block_fees_nonneg(
                    self.utxo_set@,
                    block.transactions@,
                    block.transactions@.len() as int,
                );
            }
            if cb_sum > total_fees && cb_sum - total_fees > reward as u128 {
                proof {
                    assert(cb_sum > reward + exact_fees);
                    assert(d is RejectCoinbaseAmount);
                }
                return Err(BlockError::InvalidCoinbaseAmount);
            }
            proof {
                assert(!(cb_sum > reward + exact_fees));
            }
            match self.validate_block_txs(&block, block.header.height) {
                Ok(_) => {},
                Err(e) => {
                    proof {
                        assert(d is RejectTransaction);
                    }
                    return Err(e);
                },
            }
            proof {
                assert(d is AcceptTip);
            }
            self.store_block(block, block_hash, new_work);
            self.advance_tip(block_hash);
            proof {
                assert(self.tip_work_max()) by {
                    assert(work_val(self.cumulative_work@[block_hash]) >= work_val(
                        oldc.cumulative_work@[oldc.tip],
                    )) by {
                        crate::work::lemma_work_val_bound(parent_work);
                    }
                }
            }
            Ok(block_hash)
        } else {
            // Side chain: store, then adopt it when it outweighs the tip.
            let tip_hash = self.tip;
            self.store_block(block, block_hash, new_work);
            let tip_work: Work = *self.cumulative_work.get(&tip_hash).unwrap();
            if tip_work.lt(&new_work) {
                proof {
                    assert(d is AcceptReorg);
                }
                self.reorg_to(block_hash);
                Ok(block_hash)
            } else {
                proof {
                    assert(d is AcceptSide);
                    assert(self.tip_work_max());
                }
                Ok(block_hash)
            }
        }
    }
}

impl Chain {
    /// The cached fractional difficulty at the tip, in fixed point.
    pub fn fractional_difficulty(&self) -> (r: u64)
        ensures
            r == self.fractional_difficulty,
    {
        self.fractional_difficulty
    }

    /// Toggle batch mode: callers suppress per-block persistence while set.
    pub fn set_batch_mode(&mut self, enabled: bool)
        ensures
            (*final(self) == Chain { batch_mode: enabled, ..*old(self) }),
    {
        self.batch_mode = enabled;
    }

    /// The active-chain block at a height, if within the chain.
    pub fn block_at_height(&self, height: u64) -> (r: Option<&Block>)
        requires
            self.wf(),
        ensures
            match r {
                Some(b) => height <= self.height && *b == self.blocks@[self.height_index@[
                    height as int]],
                None => height > self.height,
            },
    {
        let n = self.height_index.len();
        if height >= n as u64 {
            return None;
        }
        proof {
            reveal(Chain::doms_ok);
        }
        let hash = self.height_index[height as usize];
        self.blocks.get(&hash)
    }

    /// The header of a known hash.
    pub fn header(&self, hash: &Hash256) -> (r: Option<&BlockHeader>)
        requires
            self.wf(),
        ensures
            match r {
                Some(h) => self.headers@.dom().contains(*hash) && *h == self.headers@[*hash],
                None => !self.headers@.dom().contains(*hash),
            },
    {
        self.headers.get(hash)
    }

    /// The header at the tip.
    pub fn tip_header(&self) -> (r: &BlockHeader)
        requires
            self.wf(),
        ensures
            *r == self.headers@[self.tip],
    {
        self.headers.get(&self.tip).unwrap()
    }

    /// The block stored under a hash, active or not.
    pub fn block_by_hash(&self, hash: &Hash256) -> (r: Option<&Block>)
        requires
            self.wf(),
        ensures
            match r {
                Some(b) => self.blocks@.dom().contains(*hash) && *b == self.blocks@[*hash],
                None => !self.blocks@.dom().contains(*hash),
            },
    {
        self.blocks.get(hash)
    }

    /// How many full blocks are known, side chains included.
    pub fn total_known_blocks(&self) -> (r: usize)
        ensures
            r == self.blocks.pairs().len(),
    {
        self.blocks.len()
    }

    /// The hash of the genesis block.
    pub fn genesis_hash(&self) -> (r: Hash256)
        requires
            self.wf(),
        ensures
            r == self.height_index@[0],
    {
        self.height_index[0]
    }

    /// Validate a transaction for admission to the mempool: a coinbase
    /// is never admissible; everything else is validated against the
    /// active UTXO set at the next block height.
    pub fn validate_transaction_for_mempool(&self, tx: &Transaction) -> (r: Result<
        (),
        BlockError,
    >)
        requires
            self.wf(),
            tx_encodable(*tx),
        ensures
            r is Ok <==> !spec_is_coinbase(*tx) && spec_tx_valid(
                self.utxo_set@,
                *tx,
                (self.height + 1) as u64,
            ),
            r is Err ==> r matches Err(BlockError::InvalidTransaction(_)),
    {
        if tx.is_coinbase() {
            let m: &str = "coinbase not allowed in mempool";
            return Err(BlockError::InvalidTransaction(m.to_owned()));
        }
        // The index length is `height + 1` and fits a machine word, so
        // the next height cannot overflow.
        let index_len: usize = self.height_index.len();
        proof {
            assert(self.height + 1 == index_len);
        }
        self.validate_transaction(tx, self.height + 1)
    }

    /// The active headers at heights `start .. start + count`, clipped
    /// to the chain.
    pub fn headers_in_range(&self, start: u64, count: u32) -> (r: Vec<BlockHeader>)
        requires
            self.wf(),
        ensures
            ({
                let end: int = if start + count > self.height + 1 {
                    self.height + 1
                } else {
                    start + count
                };
                &&& (start > self.height ==> r@.len() == 0)
                &&& (start <= self.height ==> r@.len() == end - start && (forall|j: int|
                    0 <= j < r@.len() ==> r@[j] == self.headers@[self.height_index@[start + j]]))
            }),
    {
        let mut out: Vec<BlockHeader> = Vec::new();
        let n = self.height_index.len();
        if start >= n as u64 {
            return out;
        }
        let start_us = start as usize;
        let end: usize = if (count as u64) > (n as u64) - start {
            n
        } else {
            start_us + (count as usize)
        };
        let mut h: usize = start_us;
        while h < end
            invariant
                start_us <= h <= end,
                end <= n,
                n == self.height_index@.len(),
                self.wf(),
                out@.len() == h - start_us,
                forall|j: int|
                    0 <= j < out@.len() ==> out@[j] == self.headers@[self.height_index@[start_us
                        + j]],
            decreases end - h,
        {
            let hdr: BlockHeader = *self.headers.get(&self.height_index[h]).unwrap();
            out.push(hdr);
            h = h + 1;
        }
        out
    }
}

// ─── Stated laws ─────────────────────────────────────────────────────

/// Offering a block the chain already holds is refused as a duplicate
/// and leaves every part of the decision unchanged: acceptance is
/// idempotent.
pub proof fn lemma_acceptance_idempotent(c: Chain, b: Block, now: u64, now2: u64)
    requires
        spec_block_decision(c, b, now).is_accept(),
        c.blocks@.dom().contains(spec_header_pow_hash(b.header)),
    ensures
        spec_block_decision(c, b, now2) is Duplicate,
{
}

/// At all times the active tip carries at least as much cumulative work
/// as every known block.
pub proof fn lemma_tip_work_monotone(c: Chain, k: Hash256)
    requires
        c.wf(),
        c.cumulative_work@.dom().contains(k),
    ensures
        work_val(c.cumulative_work@[c.tip]) >= work_val(c.cumulative_work@[k]),
{
}

/// After any reorganization or extension, a well-formed chain's UTXO
/// set equals the replay of its active chain from genesis.
pub proof fn lemma_utxo_is_replay(c: Chain)
    requires
        c.wf(),
    ensures
        c.utxo_set@ == spec_utxo_after(c.active_blocks()),
{
    reveal(Chain::utxo_ok);
}

/// Fee conservation: an accepted non-coinbase transaction pays exactly
/// its input total minus its output total, and that fee meets the
/// minimum.
pub proof fn lemma_fee_conservation(utxo: Map<OutPoint, UtxoEntry>, tx: Transaction, h: u64)
    requires
        spec_tx_valid(utxo, tx, h),
    ensures
        spec_inputs_sum(utxo, tx.inputs@) - sum_amounts(tx.outputs@) >= MIN_TX_FEE,
        spec_inputs_sum(utxo, tx.inputs@) >= sum_amounts(tx.outputs@),
{
}

/// Coinbase maturity: a valid transaction at height `h` spends no
/// coinbase output created fewer than `COINBASE_MATURITY` blocks below.
pub proof fn lemma_coinbase_maturity(
    utxo: Map<OutPoint, UtxoEntry>,
    tx: Transaction,
    h: u64,
    i: int,
)
    requires
        spec_tx_valid(utxo, tx, h),
        0 <= i < tx.inputs@.len(),
        utxo[tx.inputs@[i].previous_output].is_coinbase,
    ensures
        h >= utxo[tx.inputs@[i].previous_output].height + COINBASE_MATURITY,
{
    assert(spec_input_valid(utxo, tx, i, h));
}

/// Coinbase-amount bound: a block accepted onto the tip claims at most
/// the block reward plus the fees its transactions pay.
pub proof fn lemma_coinbase_amount_bound(c: Chain, b: Block, now: u64)
    requires
        spec_block_decision(c, b, now) is AcceptTip,
    ensures
        sum_amounts(b.transactions@[0].outputs@) <= spec_block_reward(b.header.height)
            + spec_block_fees(c.utxo_set@, b.transactions@, b.transactions@.len() as int),
{
}

/// Difficulty replayability: the expected difficulty for a parent is a
/// function of its ancestry timestamps alone, so any two header sets
/// that agree on that ancestry agree on the expectation.
pub proof fn lemma_difficulty_replayable(
    hs1: Map<Hash256, BlockHeader>,
    hs2: Map<Hash256, BlockHeader>,
    p1: Hash256,
    p2: Hash256,
)
    requires
        ancestry_ts(hs1, p1) == ancestry_ts(hs2, p2),
    ensures
        spec_expected_difficulty(hs1, p1) == spec_expected_difficulty(hs2, p2),
{
}

/// Snapshot round trip: two well-formed chains over the same active
/// blocks agree on tip, height, UTXO set and fractional difficulty, so
/// exporting the active chain and faithfully re-importing it restores
/// the identical state.
#[verifier::rlimit(60)]
pub proof fn lemma_snapshot_roundtrip(a: Chain, b: Chain)
    requires
        a.wf(),
        b.wf(),
        a.active_blocks() == b.active_blocks(),
    ensures
        a.tip == b.tip,
        a.height == b.height,
        a.utxo_set@ == b.utxo_set@,
        a.fractional_difficulty == b.fractional_difficulty,
{
    reveal(Chain::doms_ok);
    reveal(Chain::utxo_ok);
    reveal(Chain::frac_ok);
    let n = a.height_index@.len() as int;
    assert(b.height_index@.len() == b.height + 1);
    assert(a.active_blocks().len() == n);
    assert(b.active_blocks().len() == n);
    assert(a.height == b.height);
    // Index entries are the proof-of-work hashes of the active blocks.
    assert forall|h: int| 0 <= h < n implies a.height_index@[h] == b.height_index@[h] by {
        assert(a.active_blocks()[h] == a.blocks@[a.height_index@[h]]);
        assert(b.active_blocks()[h] == b.blocks@[b.height_index@[h]]);
        assert(a.blocks@[a.height_index@[h]].header == a.headers@[a.height_index@[h]]);
        assert(b.blocks@[b.height_index@[h]].header == b.headers@[b.height_index@[h]]);
        assert(spec_header_pow_hash(a.headers@[a.height_index@[h]]) == a.height_index@[h]);
        assert(spec_header_pow_hash(b.headers@[b.height_index@[h]]) == b.height_index@[h]);
    }
    assert(a.tip == b.tip);
    assert(a.active_ts() =~= b.active_ts()) by {
        assert forall|h: int| 0 <= h < n implies a.active_ts()[h] == b.active_ts()[h] by {
            assert(a.active_blocks()[h] == a.blocks@[a.height_index@[h]]);
            assert(b.active_blocks()[h] == b.blocks@[b.height_index@[h]]);
        }
    }
}


// ─── Header-chain prefix validation ──────────────────────────────────

/// The valid prefix of a batch of sync headers, per the headers-first
/// rules: a known header stays valid and anchors what follows; an
/// unknown header must hang off a known header or its predecessor in
/// the batch, and must meet its own declared difficulty; the first
/// failure ends the prefix. Full difficulty-expectation checking waits
/// for block acceptance.
pub open spec fn spec_header_chain_prefix(
    known: Map<Hash256, BlockHeader>,
    headers: Seq<BlockHeader>,
    i: int,
    prev: Hash256,
) -> Seq<Hash256>
    decreases headers.len() - i,
{
    if i < 0 || i >= headers.len() {
        Seq::empty()
    } else {
        let h = headers[i];
        let hash = spec_header_pow_hash(h);
        if known.dom().contains(hash) {
            seq![hash] + spec_header_chain_prefix(known, headers, i + 1, hash)
        } else if !known.dom().contains(h.prev_hash) && h.prev_hash != prev {
            Seq::empty()
        } else if !spec_meets_difficulty(h) {
            Seq::empty()
        } else {
            seq![hash] + spec_header_chain_prefix(known, headers, i + 1, hash)
        }
    }
}

impl Chain {
    /// Validate a batch of sync headers and return the hashes of its
    /// valid prefix.
    #[verifier::rlimit(40)]
    pub fn validate_header_chain(&self, headers: &Vec<BlockHeader>) -> (r: Vec<Hash256>)
        requires
            self.wf(),
        ensures
            headers@.len() == 0 ==> r@.len() == 0,
            headers@.len() > 0 ==> r@ == spec_header_chain_prefix(
                self.headers@,
                headers@,
                0,
                headers@[0].prev_hash,
            ),
    {
        let mut valid: Vec<Hash256> = Vec::new();
        let n = headers.len();
        if n == 0 {
            return valid;
        }
        let ghost known = self.headers@;
        let ghost full = spec_header_chain_prefix(known, headers@, 0, headers@[0].prev_hash);
        let mut prev: Hash256 = headers[0].prev_hash;
        let mut i: usize = 0;
        proof {
            assert(full =~= valid@ + spec_header_chain_prefix(known, headers@, 0, prev));
        }
        while i < n
            invariant_except_break
                i <= n,
                full == valid@ + spec_header_chain_prefix(known, headers@, i as int, prev),
            invariant
                n == headers@.len(),
                self.headers.wf(),
                known == self.headers@,
                full == spec_header_chain_prefix(known, headers@, 0, headers@[0].prev_hash),
            ensures
                valid@ == full,
            decreases n - i,
        {
            let ghost prev0 = prev;
            let header = &headers[i];
            let hash = header.hash();
            if self.headers.contains_key(&hash) {
                valid.push(hash);
                proof {
                    assert(spec_header_chain_prefix(known, headers@, i as int, prev0)
                        =~= seq![hash] + spec_header_chain_prefix(
                        known,
                        headers@,
                        i + 1,
                        hash,
                    ));
                    assert(full =~= valid@ + spec_header_chain_prefix(
                        known,
                        headers@,
                        i + 1,
                        hash,
                    ));
                }
                prev = hash;
                i = i + 1;
                continue ;
            }
            if !self.headers.contains_key(&header.prev_hash) && !(header.prev_hash == prev) {
                proof {
                    assert(spec_header_chain_prefix(known, headers@, i as int, prev0)
                        =~= Seq::<Hash256>::empty());
                    assert(full =~= valid@);
                }
                break ;
            }
            let lz = leading_zero_bits(&hash);
            if lz < header.difficulty_target {
                proof {
                    assert(!spec_meets_difficulty(headers@[i as int]));
                    assert(spec_header_chain_prefix(known, headers@, i as int, prev0)
                        =~= Seq::<Hash256>::empty());
                    assert(full =~= valid@);
                }
                break ;
            }
            valid.push(hash);
            proof {
                assert(spec_meets_difficulty(headers@[i as int]));
                assert(spec_header_chain_prefix(known, headers@, i as int, prev0) =~= seq![hash]
                    + spec_header_chain_prefix(known, headers@, i + 1, hash));
                assert(full =~= valid@ + spec_header_chain_prefix(known, headers@, i + 1, hash));
            }
            prev = hash;
            i = i + 1;
        }
        valid
    }
}

} // verus!
