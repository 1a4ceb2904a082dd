//! Block-template assembly and the nonce search. Thread fan-out and
//! cancellation flags live outside the library; the search here is a
//! bounded loop that a coordinator drives in chunks, polling its stop
//! signal between chunks.

use vstd::prelude::*;
use crate::hashes::{Hash256, null_hash, spec_null_hash};
use crate::types::{Block, BlockHeader, Transaction, spec_is_coinbase, spec_meets_difficulty,
    merkle_root_of, block_txids, block_encodable, tx_encodable, tx_view_eq, clone_tx};
use crate::chain::{Chain, community_fund_hash};
use crate::mempool::spec_mempool_fee;
use crate::utxo::UtxoEntry;
use crate::types::{OutPoint, tx_body_enc};
use crate::params::{PROTOCOL_VERSION, MAX_BLOCK_SIZE, MAX_TXS_PER_BLOCK, block_reward};
use crate::difficulty::spec_fp_to_integer;

verus! {

/// Mining configuration: where rewards go and how many workers search.
pub struct MinerConfig {
    pub miner_pubkey_hash: Hash256,
    pub community_fund_hash: Hash256,
    pub threads: usize,
}

impl Default for MinerConfig {
    /// Rewards to the all-zero key hash, the fixed community fund, one
    /// worker.
    fn default() -> (c: MinerConfig)
        ensures
            c.miner_pubkey_hash == spec_null_hash(),
            c.community_fund_hash == crate::chain::community_fund_hash_spec(),
            c.threads == 1,
    {
        MinerConfig {
            miner_pubkey_hash: null_hash(),
            community_fund_hash: community_fund_hash(),
            threads: 1,
        }
    }
}

/// Every entry of a selected transaction list stays encodable.
pub open spec fn selection_encodable(chosen: Seq<Transaction>) -> bool {
    forall|t: int| 0 <= t < chosen.len() ==> tx_encodable(#[trigger] chosen[t])
}

/// Whether a pool transaction is includable in a template: not a
/// coinbase, every input unspent in the active set, outputs affordable.
pub open spec fn spec_selectable(utxo: Map<OutPoint, UtxoEntry>, tx: Transaction) -> bool {
    &&& !spec_is_coinbase(tx)
    &&& (forall|k: int|
        0 <= k < tx.inputs@.len() ==> utxo.dom().contains(
            (#[trigger] tx.inputs@[k]).previous_output,
        ))
    &&& crate::types::spec_total_output(tx) <= crate::chain::spec_inputs_sum(utxo, tx.inputs@)
}

/// The transactions a template takes from the pending pool, walking it
/// in order from position `i` with `size` bytes and `count` entries
/// already committed: coinbases are skipped, unaffordable or spent
/// entries are skipped, and the walk stops at the block caps.
pub open spec fn spec_select(
    utxo: Map<OutPoint, UtxoEntry>,
    pending: Seq<Transaction>,
    i: int,
    size: int,
    count: int,
) -> Seq<Transaction>
    decreases pending.len() - i,
{
    if i < 0 || i >= pending.len() {
        Seq::empty()
    } else {
        let tx = pending[i];
        if spec_is_coinbase(tx) {
            spec_select(utxo, pending, i + 1, size, count)
        } else {
            let tsz = tx_body_enc(tx).len() as int;
            if size > MAX_BLOCK_SIZE || MAX_BLOCK_SIZE - size < tsz {
                Seq::empty()
            } else if count + 1 >= MAX_TXS_PER_BLOCK {
                Seq::empty()
            } else if !spec_selectable(utxo, tx) {
                spec_select(utxo, pending, i + 1, size, count)
            } else {
                let size2: int = if usize::MAX - size < tsz {
                    usize::MAX as int
                } else {
                    size + tsz
                };
                seq![tx] + spec_select(utxo, pending, i + 1, size2, count + 1)
            }
        }
    }
}

/// Total fee of the selected transactions, accumulated in order with
/// saturation at each step.
pub open spec fn sat_fee_fold(utxo: Map<OutPoint, UtxoEntry>, txs: Seq<Transaction>) -> u64
    decreases txs.len(),
{
    if txs.len() == 0 {
        0u64
    } else {
        let p = sat_fee_fold(utxo, txs.drop_last());
        let f = spec_mempool_fee(utxo, txs.last());
        if p > u64::MAX - f {
            u64::MAX
        } else {
            (p + f) as u64
        }
    }
}

/// The amount a template's coinbase claims: the block reward plus the
/// selected transactions' fees, saturating.
pub open spec fn spec_template_claim(
    utxo: Map<OutPoint, UtxoEntry>,
    pending: Seq<Transaction>,
    height: u64,
) -> u64 {
    let fees = sat_fee_fold(utxo, spec_select(utxo, pending, 0, 0, 0));
    let reward = crate::params::spec_block_reward(height);
    if reward > u64::MAX - fees {
        u64::MAX
    } else {
        (reward + fees) as u64
    }
}

/// The outcome of a mining attempt.
pub enum MineResult {
    Found(Block),
    Cancelled,
}

/// The timestamp a fresh template carries: the wall clock, but always
/// strictly after the parent.
pub open spec fn spec_template_timestamp(now: u64, parent_ts: u64) -> u64 {
    if now > parent_ts {
        now
    } else if parent_ts == u64::MAX {
        u64::MAX
    } else {
        (parent_ts + 1) as u64
    }
}

/// Assemble a block template on the current tip: a coinbase paying the
/// configured recipients the reward plus the fees of the included
/// pending transactions, which are taken in the given fee-rate order as
/// long as their inputs are unspent and the block caps allow.
#[verifier::rlimit(40)]
pub fn create_block_template(
    chain: &Chain,
    pending_txs: &Vec<Transaction>,
    config: &MinerConfig,
    now: u64,
) -> (r: Block)
    requires
        chain.wf(),
        chain.height < u64::MAX - 1,
        forall|j: int| 0 <= j < pending_txs@.len() ==> tx_encodable(#[trigger] pending_txs@[j]),
    ensures
        r.header.version == PROTOCOL_VERSION,
        r.header.prev_hash == chain.tip,
        r.header.height == chain.height + 1,
        r.header.difficulty_target == spec_fp_to_integer(chain.fractional_difficulty),
        r.header.timestamp == spec_template_timestamp(
            now,
            chain.headers@[chain.tip].timestamp,
        ),
        r.header.nonce == 0,
        r.header.merkle_root == merkle_root_of(block_txids(r.transactions@)),
        r.transactions@.len() >= 1,
        spec_is_coinbase(r.transactions@[0]),
        block_encodable(r),
        // The body mirrors the in-order selection from the pending
        // pool, and the coinbase claims the reward plus the selected
        // fees, paid to the configured recipients.
        r.transactions@.len() == spec_select(
            chain.utxo_set@,
            pending_txs@,
            0,
            0,
            0,
        ).len() + 1,
        forall|t: int|
            1 <= t < r.transactions@.len() ==> tx_view_eq(
                #[trigger] r.transactions@[t],
                spec_select(chain.utxo_set@, pending_txs@, 0, 0, 0)[t - 1],
            ),
        r.transactions@[0].outputs@ == crate::types::coinbase_outputs(
            spec_template_claim(chain.utxo_set@, pending_txs@, (chain.height + 1) as u64),
            config.miner_pubkey_hash,
            config.community_fund_hash,
        ),
        crate::types::sum_amounts(r.transactions@[0].outputs@) == spec_template_claim(
            chain.utxo_set@,
            pending_txs@,
            (chain.height + 1) as u64,
        ),
{
    let ghost utxo = chain.utxo_set@;
    let ghost full_select = spec_select(chain.utxo_set@, pending_txs@, 0, 0, 0);
    let height = chain.height + 1;
    let reward = block_reward(height);
    let prev_hash = chain.tip;
    let difficulty = chain.next_difficulty();
    let parent_ts = chain.tip_header().timestamp;
    let timestamp: u64 = if now > parent_ts {
        now
    } else if parent_ts == u64::MAX {
        u64::MAX
    } else {
        parent_ts + 1
    };

    // Walk the pending pool in order, keeping affordable, unspent
    // transactions within the block caps.
    let mut total_fees: u64 = 0;
    let mut chosen: Vec<Transaction> = Vec::new();
    let mut block_size: usize = 0;
    let n = pending_txs.len();
    let mut i: usize = 0;
    let ghost mut sources: Seq<Transaction> = Seq::empty();
    proof {
        assert(full_select =~= sources + spec_select(utxo, pending_txs@, 0, 0, 0));
    }
    while i < n
        invariant_except_break
            i <= n,
            full_select == sources + spec_select(
                utxo,
                pending_txs@,
                i as int,
                block_size as int,
                chosen@.len() as int,
            ),
        invariant
            n == pending_txs@.len(),
            chain.wf(),
            utxo == chain.utxo_set@,
            full_select == spec_select(utxo, pending_txs@, 0, 0, 0),
            forall|j: int| 0 <= j < pending_txs@.len() ==> tx_encodable(#[trigger] pending_txs@[j]),
            chosen@.len() <= i,
            chosen@.len() < MAX_TXS_PER_BLOCK,
            selection_encodable(chosen@),
            sources.len() == chosen@.len(),
            forall|t: int|
                0 <= t < chosen@.len() ==> tx_view_eq(#[trigger] chosen@[t], sources[t]),
            forall|t: int| 0 <= t < sources.len() ==> #[trigger] sources[t] == full_select[t],
            total_fees == sat_fee_fold(utxo, sources),
        ensures
            full_select == sources,
            total_fees == sat_fee_fold(utxo, sources),
        decreases n - i,
    {
        let ghost size0 = block_size as int;
        let ghost count0 = chosen@.len() as int;
        let tx = &pending_txs[i];
        if tx.is_coinbase() {
            proof {
                assert(spec_select(utxo, pending_txs@, i as int, size0, count0) == spec_select(
                    utxo,
                    pending_txs@,
                    i + 1,
                    size0,
                    count0,
                ));
            }
            i = i + 1;
            continue ;
        }
        let tx_size = tx.size();
        if block_size > MAX_BLOCK_SIZE || MAX_BLOCK_SIZE - block_size < tx_size {
            proof {
                assert(spec_select(utxo, pending_txs@, i as int, size0, count0)
                    =~= Seq::<Transaction>::empty());
                assert(full_select =~= sources);
            }
            break ;
        }
        if chosen.len() + 1 >= MAX_TXS_PER_BLOCK {
            proof {
                assert(spec_select(utxo, pending_txs@, i as int, size0, count0)
                    =~= Seq::<Transaction>::empty());
                assert(full_select =~= sources);
            }
            break ;
        }
        // The inputs must all be unspent, and the outputs affordable.
        let mut input_sum: u128 = 0;
        let mut valid = true;
        let ni = tx.inputs.len();
        let mut k: usize = 0;
        while k < ni
            invariant
                k <= ni,
                ni == tx.inputs@.len(),
                chain.wf(),
                utxo == chain.utxo_set@,
                tx == &pending_txs@[i as int],
                i < n,
                n == pending_txs@.len(),
                input_sum <= k * 0xFFFF_FFFF_FFFF_FFFFu128,
                valid == (forall|kk: int|
                    0 <= kk < k ==> utxo.dom().contains(
                        (#[trigger] tx.inputs@[kk]).previous_output,
                    )),
                valid ==> input_sum == crate::chain::spec_inputs_sum(
                    utxo,
                    tx.inputs@.subrange(0, k as int),
                ),
            decreases ni - k,
        {
            proof {
                let pre = tx.inputs@.subrange(0, k + 1);
                assert(pre.drop_last() =~= tx.inputs@.subrange(0, k as int));
                assert(pre.last() == tx.inputs@[k as int]);
                assert((k + 1) * 0xFFFF_FFFF_FFFF_FFFFu128 == k * 0xFFFF_FFFF_FFFF_FFFFu128
                    + 0xFFFF_FFFF_FFFF_FFFFu128) by (nonlinear_arith);
                assert((k + 1) * 0xFFFF_FFFF_FFFF_FFFFu128
                    < 0x1_0000_0000_0000_0000_0000_0000_0000_0000) by (nonlinear_arith)
                    requires
                        k + 1 <= 0x1_0000_0000_0000_0000,
                ;
            }
            match chain.utxo_set.get(&tx.inputs[k].previous_output) {
                Some(e) => {
                    input_sum = input_sum + (e.output.amount as u128);
                },
                None => {
                    valid = false;
                },
            }
            k = k + 1;
        }
        proof {
            assert(tx.inputs@.subrange(0, ni as int) =~= tx.inputs@);
        }
        if !valid {
            proof {
                assert(!spec_selectable(utxo, pending_txs@[i as int]));
                assert(spec_select(utxo, pending_txs@, i as int, size0, count0) == spec_select(
                    utxo,
                    pending_txs@,
                    i + 1,
                    size0,
                    count0,
                ));
            }
            i = i + 1;
            continue ;
        }
        let output_sum = tx.total_output();
        if (output_sum as u128) > input_sum {
            proof {
                assert(!spec_selectable(utxo, pending_txs@[i as int]));
                assert(spec_select(utxo, pending_txs@, i as int, size0, count0) == spec_select(
                    utxo,
                    pending_txs@,
                    i + 1,
                    size0,
                    count0,
                ));
            }
            i = i + 1;
            continue ;
        }
        proof {
            assert(spec_selectable(utxo, pending_txs@[i as int]));
        }
        let fee128 = input_sum - output_sum as u128;
        let fee: u64 = if fee128 > u64::MAX as u128 {
            u64::MAX
        } else {
            fee128 as u64
        };
        proof {
            assert(fee == spec_mempool_fee(utxo, pending_txs@[i as int]));
        }
        total_fees = if u64::MAX - total_fees < fee {
            u64::MAX
        } else {
            total_fees + fee
        };
        let ghost chosen_before = chosen@;
        let ghost sources_before = sources;
        chosen.push(clone_tx(tx));
        proof {
            sources = sources.push(pending_txs@[i as int]);
            assert(sources.drop_last() =~= sources_before);
            assert(tx_view_eq(chosen@.last(), pending_txs@[i as int]));
            crate::types::lemma_tx_view_eq_encodable(chosen@.last(), pending_txs@[i as int]);
            assert(tx_encodable(chosen@.last()));
            assert(selection_encodable(chosen@)) by {
                assert(forall|t2: int|
                    0 <= t2 < chosen_before.len() ==> chosen@[t2]
                        == #[trigger] chosen_before[t2]);
            }
            assert(total_fees == sat_fee_fold(utxo, sources));
            // One more selected transaction extends the mirror.
            assert(spec_select(utxo, pending_txs@, i as int, size0, count0) == seq![
                pending_txs@[i as int],
            ] + spec_select(
                utxo,
                pending_txs@,
                i + 1,
                if usize::MAX - size0 < tx_body_enc(pending_txs@[i as int]).len() as int {
                    usize::MAX as int
                } else {
                    size0 + tx_body_enc(pending_txs@[i as int]).len() as int
                },
                count0 + 1,
            ));
            assert(full_select =~= sources + spec_select(
                utxo,
                pending_txs@,
                i + 1,
                if usize::MAX - size0 < tx_body_enc(pending_txs@[i as int]).len() as int {
                    usize::MAX as int
                } else {
                    size0 + tx_body_enc(pending_txs@[i as int]).len() as int
                },
                count0 + 1,
            ));
            assert forall|t: int| 0 <= t < sources.len() implies #[trigger] sources[t]
                == full_select[t] by {
                if t < sources_before.len() {
                    assert(sources[t] == sources_before[t]);
                }
            }
        }
        block_size = if usize::MAX - block_size < tx_size {
            usize::MAX
        } else {
            block_size + tx_size
        };
        i = i + 1;
    }
    proof {
        if i == n {
        }
        assert(full_select == sources);
    }

    // The coinbase claims the reward plus the collected fees.
    let claim: u64 = if u64::MAX - reward < total_fees {
        u64::MAX
    } else {
        reward + total_fees
    };
    proof {
        assert(claim == spec_template_claim(utxo, pending_txs@, height));
    }
    let coinbase = Transaction::new_coinbase(
        height,
        claim,
        config.miner_pubkey_hash,
        config.community_fund_hash,
    );
    let ghost cb = coinbase;
    let mut txs: Vec<Transaction> = Vec::new();
    txs.push(coinbase);
    let m = chosen.len();
    let ghost chosen_view = chosen@;
    proof {
        assert(chosen@ =~= chosen_view.subrange(0, m as int));
        assert(selection_encodable(chosen_view));
    }
    let mut t: usize = 0;
    while t < m
        invariant
            t <= m,
            m == chosen_view.len(),
            chosen@ == chosen_view.subrange(t as int, m as int),
            txs@.len() == t + 1,
            txs@[0] == cb,
            spec_is_coinbase(txs@[0]),
            tx_encodable(txs@[0]),
            forall|q: int| 1 <= q < txs@.len() ==> #[trigger] txs@[q] == chosen_view[q - 1],
        decreases m - t,
    {
        proof {
            assert(chosen@[0] == chosen_view.subrange(t as int, m as int)[0]);
        }
        let moved = chosen.remove(0);
        proof {
            assert(moved == chosen_view[t as int]);
            assert(chosen@ =~= chosen_view.subrange(t + 1, m as int));
        }
        txs.push(moved);
        t = t + 1;
    }
    proof {
        assert(chosen_view.subrange(0, m as int) =~= chosen_view);
    }
    let mut block = Block {
        header: BlockHeader {
            version: PROTOCOL_VERSION,
            prev_hash,
            merkle_root: null_hash(),
            timestamp,
            difficulty_target: difficulty,
            nonce: 0,
            height,
        },
        transactions: txs,
    };
    proof {
        assert forall|q: int| 0 <= q < block.transactions@.len() implies tx_encodable(
            #[trigger] block.transactions@[q],
        ) by {
            if q >= 1 {
                assert(block.transactions@[q] == chosen_view[q - 1]);
            }
        }
        assert(block_encodable(block));
    }
    let root = block.compute_merkle_root();
    block.header.merkle_root = root;
    proof {
        assert(block.transactions@[0] == cb);
        assert(block.transactions@.len() == full_select.len() + 1);
        assert forall|t: int| 1 <= t < block.transactions@.len() implies tx_view_eq(
            #[trigger] block.transactions@[t],
            full_select[t - 1],
        ) by {
            assert(block.transactions@[t] == chosen_view[t - 1]);
            assert(tx_view_eq(chosen_view[t - 1], sources[t - 1]));
            assert(sources[t - 1] == full_select[t - 1]);
        }
    }
    block
}

/// A header equal to the template's except for the nonce.
pub open spec fn with_nonce(h: BlockHeader, nonce: u64) -> BlockHeader {
    BlockHeader { nonce, ..h }
}

/// Whether a nonce solves the template's header.
pub fn try_nonce(header: &BlockHeader, nonce: u64) -> (r: bool)
    ensures
        r == spec_meets_difficulty(with_nonce(*header, nonce)),
{
    let candidate = BlockHeader { nonce, ..*header };
    candidate.meets_difficulty()
}

/// Search a bounded nonce range for a solution to a template. A
/// coordinator calls this in chunks, polling its stop signal between
/// calls; workers partition the nonce space by disjoint start offsets.
pub fn search_nonce_range(header: &BlockHeader, start: u64, count: u64) -> (r: Option<u64>)
    ensures
        match r {
            Some(n) => start <= n && n - start < count && spec_meets_difficulty(
                with_nonce(*header, n),
            ),
            None => forall|n: u64|
                start <= n < start + count ==> !spec_meets_difficulty(
                    #[trigger] with_nonce(*header, n),
                ),
        },
{
    let mut offset: u64 = 0;
    while offset < count
        invariant
            offset <= count,
            forall|n: u64|
                start <= n && n - start < offset ==> !spec_meets_difficulty(
                    #[trigger] with_nonce(*header, n),
                ),
        decreases count - offset,
    {
        let nonce = start.wrapping_add(offset);
        if start <= u64::MAX - offset {
            if try_nonce(header, nonce) {
                return Some(nonce);
            }
        }
        offset = offset + 1;
    }
    None
}

/// Mine a template by trying nonces from zero, up to a bound. Returns
/// the solved block or reports the attempt cancelled when the bound is
/// exhausted.
pub fn mine_block(block: Block, max_attempts: u64) -> (r: MineResult)
    ensures
        match r {
            MineResult::Found(b) => {
                &&& b.header == with_nonce(block.header, b.header.nonce)
                &&& b.transactions == block.transactions
                &&& spec_meets_difficulty(b.header)
            },
            MineResult::Cancelled => forall|n: u64|
                n < max_attempts ==> !spec_meets_difficulty(
                    #[trigger] with_nonce(block.header, n),
                ),
        },
{
    let mut b = block;
    let ghost orig = b;
    let mut nonce: u64 = 0;
    let mut attempts: u64 = 0;
    while attempts < max_attempts
        invariant
            b.header == with_nonce(orig.header, b.header.nonce),
            b.transactions == orig.transactions,
            orig.transactions == block.transactions,
            orig.header == block.header,
            nonce == attempts,
            forall|n: u64|
                n < attempts ==> !spec_meets_difficulty(#[trigger] with_nonce(orig.header, n)),
        decreases max_attempts - attempts,
    {
        b.header.nonce = nonce;
        proof {
            assert(b.header == with_nonce(orig.header, nonce));
        }
        if b.header.meets_difficulty() {
            return MineResult::Found(b);
        }
        nonce = nonce.wrapping_add(1);
        attempts = attempts + 1;
    }
    MineResult::Cancelled
}

} // verus!
