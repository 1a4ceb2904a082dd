//! Transactions, blocks and headers, their canonical encodings, the
//! transaction identifiers and the merkle root.

use vstd::prelude::*;
use crate::hashes::{
    Hash256, hash_bytes, hash_of_bytes, dsha256_of, dsha256_hash_of, spec_null_hash, null_hash,
    double_sha256_hash, lemma_hash_bytes_len, spec_leading_zero_bits, leading_zero_bits,
};
use crate::encoding::{le_bytes_n, lemma_le_bytes_n_len, push_le32, push_le64};
use crate::params::{spec_community_fund_amount, community_fund_amount};

verus! {

/// A reference to a previous transaction output.
#[derive(Debug, Clone, Copy, PartialEq, Eq, Structural)]
pub struct OutPoint {
    pub txid: Hash256,
    pub vout: u32,
}

/// Transaction input: spends a previous output.
#[derive(Debug, Clone)]
pub struct TxInput {
    pub previous_output: OutPoint,
    pub signature: Vec<u8>,
    pub pubkey: Vec<u8>,
    pub sequence: u32,
}

/// Transaction output: creates a new spendable output.
#[derive(Debug, Clone, Copy, PartialEq, Eq, Structural)]
pub struct TxOutput {
    pub amount: u64,
    pub pubkey_hash: Hash256,
}

/// A complete transaction.
#[derive(Debug, Clone)]
pub struct Transaction {
    pub version: u32,
    pub inputs: Vec<TxInput>,
    pub outputs: Vec<TxOutput>,
    pub lock_time: u64,
}

/// Block header. `difficulty_target` is the number of leading zero bits
/// required in the block's proof-of-work hash.
#[derive(Debug, Clone, Copy, PartialEq, Eq, Structural)]
pub struct BlockHeader {
    pub version: u32,
    pub prev_hash: Hash256,
    pub merkle_root: Hash256,
    pub timestamp: u64,
    pub difficulty_target: u32,
    pub nonce: u64,
    pub height: u64,
}

/// A complete block: a header and its ordered transactions, the first of
/// which must be a coinbase.
#[derive(Debug, Clone)]
pub struct Block {
    pub header: BlockHeader,
    pub transactions: Vec<Transaction>,
}

// ─── Canonical encodings ─────────────────────────────────────────────

/// Domain-separation tag of the txid encoding: the ASCII bytes of
/// `EQF_TXID_V1`.
pub open spec fn txid_tag() -> Seq<u8> {
    seq![0x45u8, 0x51u8, 0x46u8, 0x5Fu8, 0x54u8, 0x58u8, 0x49u8, 0x44u8, 0x5Fu8, 0x56u8, 0x31u8]
}

/// Domain-separation tag of the witness-txid encoding: the ASCII bytes of
/// `EQF_WTXID_V1`.
pub open spec fn wtxid_tag() -> Seq<u8> {
    seq![
        0x45u8, 0x51u8, 0x46u8, 0x5Fu8, 0x57u8, 0x54u8, 0x58u8, 0x49u8, 0x44u8, 0x5Fu8, 0x56u8,
        0x31u8,
    ]
}

/// Domain-separation tag of the signing-hash encoding: the ASCII bytes of
/// `EQF_TXSIG_V1`.
pub open spec fn txsig_tag() -> Seq<u8> {
    seq![
        0x45u8, 0x51u8, 0x46u8, 0x5Fu8, 0x54u8, 0x58u8, 0x53u8, 0x49u8, 0x47u8, 0x5Fu8, 0x56u8,
        0x31u8,
    ]
}

/// Canonical encoding of an outpoint: 32 hash bytes then the index.
pub open spec fn outpoint_enc(op: OutPoint) -> Seq<u8> {
    hash_bytes(op.txid) + le_bytes_n(op.vout as nat, 4)
}

/// Canonical encoding of one output: amount then owner hash.
pub open spec fn output_enc(o: TxOutput) -> Seq<u8> {
    le_bytes_n(o.amount as nat, 8) + hash_bytes(o.pubkey_hash)
}

/// Concatenated encoding of a list of outputs.
pub open spec fn outputs_enc(outs: Seq<TxOutput>) -> Seq<u8>
    decreases outs.len(),
{
    if outs.len() == 0 {
        Seq::empty()
    } else {
        outputs_enc(outs.drop_last()) + output_enc(outs.last())
    }
}

/// Identifier encoding of one input: it excludes the unlocking data
/// (signature and public key), so the txid survives future rewrites of it.
pub open spec fn input_id_enc(i: TxInput) -> Seq<u8> {
    outpoint_enc(i.previous_output) + le_bytes_n(i.sequence as nat, 4)
}

/// Concatenated identifier encoding of a list of inputs.
pub open spec fn inputs_id_enc(ins: Seq<TxInput>) -> Seq<u8>
    decreases ins.len(),
{
    if ins.len() == 0 {
        Seq::empty()
    } else {
        inputs_id_enc(ins.drop_last()) + input_id_enc(ins.last())
    }
}

/// Full encoding of one input, unlocking data included.
pub open spec fn input_full_enc(i: TxInput) -> Seq<u8> {
    outpoint_enc(i.previous_output) + le_bytes_n(i.sequence as nat, 4) + le_bytes_n(
        i.signature@.len() as nat,
        4,
    ) + i.signature@ + le_bytes_n(i.pubkey@.len() as nat, 4) + i.pubkey@
}

/// Concatenated full encoding of a list of inputs.
pub open spec fn inputs_full_enc(ins: Seq<TxInput>) -> Seq<u8>
    decreases ins.len(),
{
    if ins.len() == 0 {
        Seq::empty()
    } else {
        inputs_full_enc(ins.drop_last()) + input_full_enc(ins.last())
    }
}

/// Encoding hashed for the txid: tag, version, inputs without unlocking
/// data, outputs, lock time.
pub open spec fn txid_enc(tx: Transaction) -> Seq<u8> {
    txid_tag() + le_bytes_n(tx.version as nat, 4) + le_bytes_n(tx.inputs@.len() as nat, 4)
        + inputs_id_enc(tx.inputs@) + le_bytes_n(tx.outputs@.len() as nat, 4) + outputs_enc(
        tx.outputs@,
    ) + le_bytes_n(tx.lock_time as nat, 8)
}

/// Encoding hashed for the witness txid: like the txid encoding but with
/// the unlocking data included.
pub open spec fn wtxid_enc(tx: Transaction) -> Seq<u8> {
    wtxid_tag() + le_bytes_n(tx.version as nat, 4) + le_bytes_n(tx.inputs@.len() as nat, 4)
        + inputs_full_enc(tx.inputs@) + le_bytes_n(tx.outputs@.len() as nat, 4) + outputs_enc(
        tx.outputs@,
    ) + le_bytes_n(tx.lock_time as nat, 8)
}

/// Full canonical encoding of a transaction as stored inside a block.
pub open spec fn tx_body_enc(tx: Transaction) -> Seq<u8> {
    le_bytes_n(tx.version as nat, 4) + le_bytes_n(tx.inputs@.len() as nat, 4) + inputs_full_enc(
        tx.inputs@,
    ) + le_bytes_n(tx.outputs@.len() as nat, 4) + outputs_enc(tx.outputs@) + le_bytes_n(
        tx.lock_time as nat,
        8,
    )
}

/// The transaction id: double SHA-256 of the identifier encoding.
pub open spec fn spec_txid(tx: Transaction) -> Hash256 {
    dsha256_hash_of(txid_enc(tx))
}

/// The witness transaction id: double SHA-256 of the full encoding.
pub open spec fn spec_wtxid(tx: Transaction) -> Hash256 {
    dsha256_hash_of(wtxid_enc(tx))
}

/// Canonical encoding of a block header.
pub open spec fn header_enc(h: BlockHeader) -> Seq<u8> {
    le_bytes_n(h.version as nat, 4) + hash_bytes(h.prev_hash) + hash_bytes(h.merkle_root)
        + le_bytes_n(h.timestamp as nat, 8) + le_bytes_n(h.difficulty_target as nat, 4)
        + le_bytes_n(h.nonce as nat, 8) + le_bytes_n(h.height as nat, 8)
}

/// Concatenated encoding of a block's transactions.
pub open spec fn txs_enc(txs: Seq<Transaction>) -> Seq<u8>
    decreases txs.len(),
{
    if txs.len() == 0 {
        Seq::empty()
    } else {
        txs_enc(txs.drop_last()) + tx_body_enc(txs.last())
    }
}

/// Canonical encoding of a whole block.
pub open spec fn block_enc(b: Block) -> Seq<u8> {
    header_enc(b.header) + le_bytes_n(b.transactions@.len() as nat, 4) + txs_enc(b.transactions@)
}

// ─── Executable encoders ─────────────────────────────────────────────

fn push_hash(out: &mut Vec<u8>, h: &Hash256)
    ensures
        final(out)@ == old(out)@ + hash_bytes(*h),
{
    let b = h.to_bytes();
    append_bytes(out, &b);
}

/// Append a byte slice to a vector.
fn append_bytes(out: &mut Vec<u8>, bytes: &Vec<u8>)
    ensures
        final(out)@ == old(out)@ + bytes@,
{
    let mut i: usize = 0;
    let n = bytes.len();
    while i < n
        invariant
            i <= n,
            n == bytes@.len(),
            out@ == old(out)@ + bytes@.subrange(0, i as int),
        decreases n - i,
    {
        out.push(bytes[i]);
        proof {
            assert(old(out)@ + bytes@.subrange(0, i + 1) =~= (old(out)@ + bytes@.subrange(
                0,
                i as int,
            )).push(bytes@[i as int]));
        }
        i = i + 1;
    }
    proof {
        assert(bytes@.subrange(0, n as int) =~= bytes@);
    }
}

fn push_outpoint(out: &mut Vec<u8>, op: &OutPoint)
    ensures
        final(out)@ == old(out)@ + outpoint_enc(*op),
{
    push_hash(out, &op.txid);
    push_le32(out, op.vout);
    proof {
        assert(old(out)@ + outpoint_enc(*op) =~= old(out)@ + hash_bytes(op.txid) + le_bytes_n(
            op.vout as nat,
            4,
        ));
    }
}

fn push_output(out: &mut Vec<u8>, o: &TxOutput)
    ensures
        final(out)@ == old(out)@ + output_enc(*o),
{
    push_le64(out, o.amount);
    push_hash(out, &o.pubkey_hash);
    proof {
        assert(old(out)@ + output_enc(*o) =~= old(out)@ + le_bytes_n(o.amount as nat, 8)
            + hash_bytes(o.pubkey_hash));
    }
}

fn push_outputs(out: &mut Vec<u8>, outputs: &Vec<TxOutput>)
    ensures
        final(out)@ == old(out)@ + outputs_enc(outputs@),
{
    let mut i: usize = 0;
    let n = outputs.len();
    while i < n
        invariant
            i <= n,
            n == outputs@.len(),
            out@ == old(out)@ + outputs_enc(outputs@.subrange(0, i as int)),
        decreases n - i,
    {
        push_output(out, &outputs[i]);
        proof {
            let pre = outputs@.subrange(0, i + 1);
            assert(pre.drop_last() =~= outputs@.subrange(0, i as int));
            assert(old(out)@ + outputs_enc(pre) =~= old(out)@ + outputs_enc(pre.drop_last())
                + output_enc(outputs@[i as int]));
        }
        i = i + 1;
    }
    proof {
        assert(outputs@.subrange(0, n as int) =~= outputs@);
    }
}

fn push_input_id(out: &mut Vec<u8>, i: &TxInput)
    ensures
        final(out)@ == old(out)@ + input_id_enc(*i),
{
    push_outpoint(out, &i.previous_output);
    push_le32(out, i.sequence);
    proof {
        assert(old(out)@ + input_id_enc(*i) =~= old(out)@ + outpoint_enc(i.previous_output)
            + le_bytes_n(i.sequence as nat, 4));
    }
}

fn push_inputs_id(out: &mut Vec<u8>, inputs: &Vec<TxInput>)
    ensures
        final(out)@ == old(out)@ + inputs_id_enc(inputs@),
{
    let mut i: usize = 0;
    let n = inputs.len();
    while i < n
        invariant
            i <= n,
            n == inputs@.len(),
            out@ == old(out)@ + inputs_id_enc(inputs@.subrange(0, i as int)),
        decreases n - i,
    {
        push_input_id(out, &inputs[i]);
        proof {
            let pre = inputs@.subrange(0, i + 1);
            assert(pre.drop_last() =~= inputs@.subrange(0, i as int));
            assert(old(out)@ + inputs_id_enc(pre) =~= old(out)@ + inputs_id_enc(pre.drop_last())
                + input_id_enc(inputs@[i as int]));
        }
        i = i + 1;
    }
    proof {
        assert(inputs@.subrange(0, n as int) =~= inputs@);
    }
}

fn push_input_full(out: &mut Vec<u8>, i: &TxInput)
    requires
        i.signature@.len() <= u32::MAX,
        i.pubkey@.len() <= u32::MAX,
    ensures
        final(out)@ == old(out)@ + input_full_enc(*i),
{
    push_outpoint(out, &i.previous_output);
    push_le32(out, i.sequence);
    let siglen: usize = i.signature.len();
    push_le_len(out, siglen);
    append_bytes(out, &i.signature);
    let pklen: usize = i.pubkey.len();
    push_le_len(out, pklen);
    append_bytes(out, &i.pubkey);
    proof {
        assert(old(out)@ + input_full_enc(*i) =~= old(out)@ + outpoint_enc(i.previous_output)
            + le_bytes_n(i.sequence as nat, 4) + le_bytes_n(i.signature@.len() as nat, 4)
            + i.signature@ + le_bytes_n(i.pubkey@.len() as nat, 4) + i.pubkey@);
    }
}

/// Append a length as 4 little-endian bytes; lengths above `u32::MAX` keep
/// only their low 32 bits, as a `u32` cast would.
fn push_le_len(out: &mut Vec<u8>, n: usize)
    requires
        n <= u32::MAX,
    ensures
        final(out)@ == old(out)@ + le_bytes_n(n as nat, 4),
{
    push_le32(out, n as u32);
}

fn push_inputs_full(out: &mut Vec<u8>, inputs: &Vec<TxInput>)
    requires
        forall|j: int|
            0 <= j < inputs@.len() ==> (#[trigger] inputs@[j]).signature@.len() <= u32::MAX
                && inputs@[j].pubkey@.len() <= u32::MAX,
    ensures
        final(out)@ == old(out)@ + inputs_full_enc(inputs@),
{
    let mut i: usize = 0;
    let n = inputs.len();
    while i < n
        invariant
            i <= n,
            n == inputs@.len(),
            forall|j: int|
                0 <= j < inputs@.len() ==> (#[trigger] inputs@[j]).signature@.len() <= u32::MAX
                    && inputs@[j].pubkey@.len() <= u32::MAX,
            out@ == old(out)@ + inputs_full_enc(inputs@.subrange(0, i as int)),
        decreases n - i,
    {
        push_input_full(out, &inputs[i]);
        proof {
            let pre = inputs@.subrange(0, i + 1);
            assert(pre.drop_last() =~= inputs@.subrange(0, i as int));
            assert(old(out)@ + inputs_full_enc(pre) =~= old(out)@ + inputs_full_enc(
                pre.drop_last(),
            ) + input_full_enc(inputs@[i as int]));
        }
        i = i + 1;
    }
    proof {
        assert(inputs@.subrange(0, n as int) =~= inputs@);
    }
}

/// Whether every variable-length field of a transaction fits its 32-bit
/// length prefix. Machine limits force this bound on the encoders.
pub open spec fn tx_encodable(tx: Transaction) -> bool {
    &&& tx.inputs@.len() <= u32::MAX
    &&& tx.outputs@.len() <= u32::MAX
    &&& forall|j: int|
        0 <= j < tx.inputs@.len() ==> (#[trigger] tx.inputs@[j]).signature@.len() <= u32::MAX
            && tx.inputs@[j].pubkey@.len() <= u32::MAX
}

impl Transaction {
    /// The encoding whose double SHA-256 is the txid.
    pub fn encode_for_txid(&self) -> (r: Vec<u8>)
        requires
            tx_encodable(*self),
        ensures
            r@ == txid_enc(*self),
    {
        let mut out: Vec<u8> = Vec::new();
        push_txid_tag(&mut out);
        push_le32(&mut out, self.version);
        push_le_len(&mut out, self.inputs.len());
        push_inputs_id(&mut out, &self.inputs);
        push_le_len(&mut out, self.outputs.len());
        push_outputs(&mut out, &self.outputs);
        push_le64(&mut out, self.lock_time);
        proof {
            assert(out@ =~= txid_enc(*self));
        }
        out
    }

    /// The encoding whose double SHA-256 is the witness txid.
    pub fn encode_for_wtxid(&self) -> (r: Vec<u8>)
        requires
            tx_encodable(*self),
        ensures
            r@ == wtxid_enc(*self),
    {
        let mut out: Vec<u8> = Vec::new();
        push_wtxid_tag(&mut out);
        push_le32(&mut out, self.version);
        push_le_len(&mut out, self.inputs.len());
        push_inputs_full(&mut out, &self.inputs);
        push_le_len(&mut out, self.outputs.len());
        push_outputs(&mut out, &self.outputs);
        push_le64(&mut out, self.lock_time);
        proof {
            assert(out@ =~= wtxid_enc(*self));
        }
        out
    }

    /// The full canonical encoding, as stored inside a block.
    pub fn encode(&self) -> (r: Vec<u8>)
        requires
            tx_encodable(*self),
        ensures
            r@ == tx_body_enc(*self),
    {
        let mut out: Vec<u8> = Vec::new();
        push_le32(&mut out, self.version);
        push_le_len(&mut out, self.inputs.len());
        push_inputs_full(&mut out, &self.inputs);
        push_le_len(&mut out, self.outputs.len());
        push_outputs(&mut out, &self.outputs);
        push_le64(&mut out, self.lock_time);
        proof {
            assert(out@ =~= tx_body_enc(*self));
        }
        out
    }

    /// The transaction hash used as its identifier: the txid.
    pub fn hash(&self) -> (h: Hash256)
        requires
            tx_encodable(*self),
        ensures
            h == spec_txid(*self),
    {
        let enc = self.encode_for_txid();
        double_sha256_hash(enc.as_slice())
    }

    /// Size of the canonical encoding in bytes.
    pub fn size(&self) -> (n: usize)
        requires
            tx_encodable(*self),
        ensures
            n == tx_body_enc(*self).len(),
    {
        let enc = self.encode();
        enc.len()
    }
}

/// The txid of a transaction (canonical identifier encoding, double
/// SHA-256; the unlocking data is excluded).
pub fn txid_v1(tx: &Transaction) -> (h: Hash256)
    requires
        tx_encodable(*tx),
    ensures
        h == spec_txid(*tx),
{
    tx.hash()
}

/// The witness txid of a transaction: like the txid but with unlocking
/// data included, for relay uniqueness.
pub fn wtxid_v1(tx: &Transaction) -> (h: Hash256)
    requires
        tx_encodable(*tx),
    ensures
        h == spec_wtxid(*tx),
{
    let enc = tx.encode_for_wtxid();
    double_sha256_hash(enc.as_slice())
}

fn push_txid_tag(out: &mut Vec<u8>)
    ensures
        final(out)@ == old(out)@ + txid_tag(),
{
    out.push(0x45);
    out.push(0x51);
    out.push(0x46);
    out.push(0x5F);
    out.push(0x54);
    out.push(0x58);
    out.push(0x49);
    out.push(0x44);
    out.push(0x5F);
    out.push(0x56);
    out.push(0x31);
    proof {
        assert(out@ =~= old(out)@ + txid_tag());
    }
}

fn push_wtxid_tag(out: &mut Vec<u8>)
    ensures
        final(out)@ == old(out)@ + wtxid_tag(),
{
    out.push(0x45);
    out.push(0x51);
    out.push(0x46);
    out.push(0x5F);
    out.push(0x57);
    out.push(0x54);
    out.push(0x58);
    out.push(0x49);
    out.push(0x44);
    out.push(0x5F);
    out.push(0x56);
    out.push(0x31);
    proof {
        assert(out@ =~= old(out)@ + wtxid_tag());
    }
}

fn push_txsig_tag(out: &mut Vec<u8>)
    ensures
        final(out)@ == old(out)@ + txsig_tag(),
{
    out.push(0x45);
    out.push(0x51);
    out.push(0x46);
    out.push(0x5F);
    out.push(0x54);
    out.push(0x58);
    out.push(0x53);
    out.push(0x49);
    out.push(0x47);
    out.push(0x5F);
    out.push(0x56);
    out.push(0x31);
    proof {
        assert(out@ =~= old(out)@ + txsig_tag());
    }
}

// ─── Signing hash ────────────────────────────────────────────────────

/// Signing-hash contribution of one input. The input under signature
/// additionally binds the amount and owner of the spent output.
pub open spec fn sig_input_enc(i: TxInput, is_signing: bool, prev: TxOutput) -> Seq<u8> {
    outpoint_enc(i.previous_output) + le_bytes_n(i.sequence as nat, 4) + if is_signing {
        le_bytes_n(prev.amount as nat, 8) + hash_bytes(prev.pubkey_hash)
    } else {
        Seq::empty()
    }
}

/// Concatenated signing-hash contributions of a list of inputs.
pub open spec fn inputs_sig_enc(ins: Seq<TxInput>, signing_idx: int, prev: TxOutput) -> Seq<u8>
    decreases ins.len(),
{
    if ins.len() == 0 {
        Seq::empty()
    } else {
        inputs_sig_enc(ins.drop_last(), signing_idx, prev) + sig_input_enc(
            ins.last(),
            ins.len() - 1 == signing_idx,
            prev,
        )
    }
}

/// The encoding hashed for the version-1 signing hash.
pub open spec fn txsig_enc(tx: Transaction, input_index: int, prev: TxOutput) -> Seq<u8> {
    txsig_tag() + le_bytes_n(tx.version as nat, 4) + le_bytes_n(tx.inputs@.len() as nat, 4)
        + inputs_sig_enc(tx.inputs@, input_index, prev) + le_bytes_n(tx.outputs@.len() as nat, 4)
        + outputs_enc(tx.outputs@) + le_bytes_n(tx.lock_time as nat, 8)
}

/// The version-1 signing hash of one input of a transaction.
pub open spec fn spec_tx_signing_hash_v1(tx: Transaction, input_index: int, prev: TxOutput)
    -> Hash256 {
    dsha256_hash_of(txsig_enc(tx, input_index, prev))
}

/// Canonical signing hash for a transaction input. It binds the signature
/// to the specific output being spent: the amount and owner of `prev_output`
/// enter the digest for the input at `input_index`.
pub fn tx_signing_hash_v1(tx: &Transaction, input_index: usize, prev_output: &TxOutput) -> (h:
    Hash256)
    requires
        tx_encodable(*tx),
    ensures
        h == spec_tx_signing_hash_v1(*tx, input_index as int, *prev_output),
{
    let mut out: Vec<u8> = Vec::new();
    push_txsig_tag(&mut out);
    push_le32(&mut out, tx.version);
    push_le_len(&mut out, tx.inputs.len());
    let mut i: usize = 0;
    let n = tx.inputs.len();
    let ghost base = out@;
    while i < n
        invariant
            i <= n,
            n == tx.inputs@.len(),
            out@ == base + inputs_sig_enc(
                tx.inputs@.subrange(0, i as int),
                input_index as int,
                *prev_output,
            ),
        decreases n - i,
    {
        let inp = &tx.inputs[i];
        push_outpoint(&mut out, &inp.previous_output);
        push_le32(&mut out, inp.sequence);
        if i == input_index {
            push_le64(&mut out, prev_output.amount);
            push_hash(&mut out, &prev_output.pubkey_hash);
        }
        proof {
            let pre = tx.inputs@.subrange(0, i + 1);
            assert(pre.drop_last() =~= tx.inputs@.subrange(0, i as int));
            assert(out@ =~= base + inputs_sig_enc(pre, input_index as int, *prev_output));
        }
        i = i + 1;
    }
    proof {
        assert(tx.inputs@.subrange(0, n as int) =~= tx.inputs@);
    }
    push_le_len(&mut out, tx.outputs.len());
    push_outputs(&mut out, &tx.outputs);
    push_le64(&mut out, tx.lock_time);
    proof {
        assert(out@ =~= txsig_enc(*tx, input_index as int, *prev_output));
    }
    double_sha256_hash(out.as_slice())
}

// ─── Coinbase and amounts ────────────────────────────────────────────

/// Whether a transaction is a coinbase: a single input referencing the
/// null outpoint with index `0xFFFFFFFF`.
pub open spec fn spec_is_coinbase(tx: Transaction) -> bool {
    &&& tx.inputs@.len() == 1
    &&& tx.inputs@[0].previous_output.txid == spec_null_hash()
    &&& tx.inputs@[0].previous_output.vout == 0xFFFFFFFFu32
}

/// Exact sum of the output amounts, unbounded.
pub open spec fn sum_amounts(outs: Seq<TxOutput>) -> int
    decreases outs.len(),
{
    if outs.len() == 0 {
        0
    } else {
        sum_amounts(outs.drop_last()) + outs.last().amount
    }
}

/// The output total as a `u64`: the exact sum, saturated at `u64::MAX`.
pub open spec fn spec_total_output(tx: Transaction) -> u64 {
    if sum_amounts(tx.outputs@) > u64::MAX {
        u64::MAX
    } else {
        sum_amounts(tx.outputs@) as u64
    }
}

/// The outputs of a coinbase paying `reward` to a miner, with the
/// community fund's share split out when it is nonzero.
pub open spec fn coinbase_outputs(reward: u64, miner: Hash256, fund: Hash256) -> Seq<TxOutput> {
    let community = spec_community_fund_amount(reward);
    if community > 0 {
        seq![
            TxOutput { amount: (reward - community) as u64, pubkey_hash: miner },
            TxOutput { amount: community, pubkey_hash: fund },
        ]
    } else {
        seq![TxOutput { amount: reward, pubkey_hash: miner }]
    }
}

impl Transaction {
    /// Create a coinbase transaction minting `reward` at `height`, paying
    /// the miner and the community fund.
    pub fn new_coinbase(height: u64, reward: u64, miner_pubkey_hash: Hash256, community_fund_hash:
        Hash256) -> (tx: Transaction)
        ensures
            spec_is_coinbase(tx),
            tx.outputs@ == coinbase_outputs(reward, miner_pubkey_hash, community_fund_hash),
            sum_amounts(tx.outputs@) == reward,
            tx.version == 1,
            tx.lock_time == 0,
            tx_encodable(tx),
            // The coinbase input carries the block height in its
            // signature field and has no public key.
            tx.inputs@[0].signature@ == le_bytes_n(height as nat, 8),
            tx.inputs@[0].pubkey@.len() == 0,
            tx.inputs@[0].sequence == 0xFFFFFFFFu32,
    {
        let community_amount = community_fund_amount(reward);
        let miner_amount = reward - community_amount;

        let mut outputs: Vec<TxOutput> = Vec::new();
        outputs.push(TxOutput { amount: miner_amount, pubkey_hash: miner_pubkey_hash });
        if community_amount > 0 {
            outputs.push(TxOutput { amount: community_amount, pubkey_hash: community_fund_hash });
        }

        // The coinbase input carries the block height in its signature field.
        let mut height_bytes: Vec<u8> = Vec::new();
        push_le64(&mut height_bytes, height);

        let mut inputs: Vec<TxInput> = Vec::new();
        inputs.push(
            TxInput {
                previous_output: OutPoint { txid: null_hash(), vout: 0xFFFFFFFF },
                signature: height_bytes,
                pubkey: Vec::new(),
                sequence: 0xFFFFFFFF,
            },
        );

        let tx = Transaction { version: 1, inputs, outputs, lock_time: 0 };
        proof {
            assert(tx.outputs@ =~= coinbase_outputs(
                reward,
                miner_pubkey_hash,
                community_fund_hash,
            ));
            let outs = tx.outputs@;
            assert(sum_amounts(Seq::<TxOutput>::empty()) == 0);
            if spec_community_fund_amount(reward) > 0 {
                assert(outs.drop_last() =~= seq![outs[0]]);
                assert(seq![outs[0]].drop_last() =~= Seq::<TxOutput>::empty());
                assert(sum_amounts(seq![outs[0]]) == miner_amount);
                assert(sum_amounts(outs) == miner_amount + community_amount);
            } else {
                assert(outs.drop_last() =~= Seq::<TxOutput>::empty());
                assert(sum_amounts(outs) == reward);
            }
            crate::encoding::lemma_le_bytes_n_len(height as nat, 8);
            assert(tx.inputs@[0].signature@ =~= le_bytes_n(height as nat, 8));
        }
        tx
    }

    /// Whether this transaction is a coinbase.
    pub fn is_coinbase(&self) -> (b: bool)
        ensures
            b == spec_is_coinbase(*self),
    {
        self.inputs.len() == 1 && self.inputs[0].previous_output.txid.is_null()
            && self.inputs[0].previous_output.vout == 0xFFFFFFFF
    }

    /// Total of the output amounts, saturated at `u64::MAX`.
    pub fn total_output(&self) -> (r: u64)
        ensures
            r == spec_total_output(*self),
    {
        let mut acc: u64 = 0;
        let mut i: usize = 0;
        let n = self.outputs.len();
        while i < n
            invariant
                i <= n,
                n == self.outputs@.len(),
                acc == if sum_amounts(self.outputs@.subrange(0, i as int)) > u64::MAX {
                    u64::MAX as int
                } else {
                    sum_amounts(self.outputs@.subrange(0, i as int))
                },
            decreases n - i,
        {
            let amt = self.outputs[i].amount;
            proof {
                let pre = self.outputs@.subrange(0, i + 1);
                assert(pre.drop_last() =~= self.outputs@.subrange(0, i as int));
                assert(pre.last() == self.outputs@[i as int]);
            }
            if u64::MAX - acc < amt {
                acc = u64::MAX;
            } else {
                acc = acc + amt;
            }
            i = i + 1;
        }
        proof {
            assert(self.outputs@.subrange(0, n as int) =~= self.outputs@);
        }
        acc
    }
}

// ─── Merkle root ─────────────────────────────────────────────────────

/// Hash of one merkle node: double SHA-256 of the two children's bytes.
pub open spec fn merkle_pair(a: Hash256, b: Hash256) -> Hash256 {
    dsha256_hash_of(hash_bytes(a) + hash_bytes(b))
}

/// One level of the merkle tree; an odd trailing leaf is paired with
/// itself.
pub open spec fn merkle_level(hs: Seq<Hash256>) -> Seq<Hash256> {
    let padded = if hs.len() % 2 == 1 {
        hs.push(hs.last())
    } else {
        hs
    };
    Seq::new(padded.len() / 2, |i: int| merkle_pair(padded[2 * i], padded[2 * i + 1]))
}

/// The merkle root over a list of leaf hashes; the empty list gives the
/// null hash.
pub open spec fn merkle_root_of(hs: Seq<Hash256>) -> Hash256
    decreases hs.len(),
{
    if hs.len() == 0 {
        spec_null_hash()
    } else if hs.len() == 1 {
        hs[0]
    } else {
        merkle_root_of(merkle_level(hs))
    }
}

/// The leaf hashes of a block's merkle tree: its transactions' txids.
pub open spec fn block_txids(txs: Seq<Transaction>) -> Seq<Hash256> {
    txs.map_values(|t: Transaction| spec_txid(t))
}

/// Whether every transaction of a block fits the encoders' length limits.
pub open spec fn block_encodable(b: Block) -> bool {
    &&& b.transactions@.len() <= u32::MAX
    &&& forall|j: int| 0 <= j < b.transactions@.len() ==> tx_encodable(#[trigger] b.transactions@[j])
}

impl Block {
    /// Compute the merkle root over the transactions' txids, duplicating
    /// the trailing odd leaf at each level.
    pub fn compute_merkle_root(&self) -> (r: Hash256)
        requires
            block_encodable(*self),
        ensures
            r == merkle_root_of(block_txids(self.transactions@)),
    {
        let n = self.transactions.len();
        if n == 0 {
            return null_hash();
        }
        let mut hashes: Vec<Hash256> = Vec::new();
        let mut i: usize = 0;
        while i < n
            invariant
                i <= n,
                n == self.transactions@.len(),
                block_encodable(*self),
                hashes@ =~= block_txids(self.transactions@.subrange(0, i as int)),
            decreases n - i,
        {
            let h = self.transactions[i].hash();
            hashes.push(h);
            proof {
                assert(hashes@ =~= block_txids(self.transactions@.subrange(0, i + 1)));
            }
            i = i + 1;
        }
        proof {
            assert(self.transactions@.subrange(0, n as int) =~= self.transactions@);
        }
        merkle_root_exec(hashes)
    }

    /// Whether the header's merkle root matches the recomputed one.
    pub fn validate_merkle_root(&self) -> (b: bool)
        requires
            block_encodable(*self),
        ensures
            b == (self.header.merkle_root == merkle_root_of(block_txids(self.transactions@))),
    {
        let computed = self.compute_merkle_root();
        self.header.merkle_root == computed
    }

    /// The canonical encoding of the whole block.
    pub fn encode(&self) -> (r: Vec<u8>)
        requires
            block_encodable(*self),
        ensures
            r@ == block_enc(*self),
    {
        let mut out: Vec<u8> = Vec::new();
        push_header(&mut out, &self.header);
        push_le_len(&mut out, self.transactions.len());
        let mut i: usize = 0;
        let n = self.transactions.len();
        let ghost base = out@;
        while i < n
            invariant
                i <= n,
                n == self.transactions@.len(),
                block_encodable(*self),
                out@ == base + txs_enc(self.transactions@.subrange(0, i as int)),
            decreases n - i,
        {
            let enc = self.transactions[i].encode();
            append_bytes(&mut out, &enc);
            proof {
                let pre = self.transactions@.subrange(0, i + 1);
                assert(pre.drop_last() =~= self.transactions@.subrange(0, i as int));
                assert(out@ =~= base + txs_enc(pre));
            }
            i = i + 1;
        }
        proof {
            assert(self.transactions@.subrange(0, n as int) =~= self.transactions@);
            assert(out@ =~= block_enc(*self));
        }
        out
    }

    /// Size of the canonical block encoding in bytes.
    pub fn size(&self) -> (r: usize)
        requires
            block_encodable(*self),
        ensures
            r == block_enc(*self).len(),
    {
        let enc = self.encode();
        enc.len()
    }
}

/// Reduce a vector of leaf hashes to the merkle root.
fn merkle_root_exec(hashes: Vec<Hash256>) -> (r: Hash256)
    requires
        hashes@.len() >= 1,
    ensures
        r == merkle_root_of(hashes@),
{
    let mut cur = hashes;
    while cur.len() > 1
        invariant
            cur@.len() >= 1,
            merkle_root_of(cur@) == merkle_root_of(hashes@),
        decreases cur@.len(),
    {
        let mut padded = cur;
        if padded.len() % 2 != 0 {
            let last = padded[padded.len() - 1];
            padded.push(last);
        }
        let ghost padded_spec = if cur@.len() % 2 == 1 {
            cur@.push(cur@.last())
        } else {
            cur@
        };
        proof {
            assert(padded@ =~= padded_spec);
        }
        let plen: usize = padded.len();
        let m = plen / 2;
        let mut next: Vec<Hash256> = Vec::new();
        let mut i: usize = 0;
        while i < m
            invariant
                i <= m,
                plen == padded@.len(),
                m == padded@.len() / 2,
                padded@.len() % 2 == 0,
                next@ =~= Seq::new(i as nat, |j: int| merkle_pair(padded@[2 * j], padded@[2 * j + 1])),
            decreases m - i,
        {
            let a = padded[2 * i];
            let b = padded[2 * i + 1];
            let mut buf = a.to_bytes();
            let bb = b.to_bytes();
            append_bytes(&mut buf, &bb);
            let pair = double_sha256_hash(buf.as_slice());
            next.push(pair);
            proof {
                assert(next@ =~= Seq::new(
                    (i + 1) as nat,
                    |j: int| merkle_pair(padded@[2 * j], padded@[2 * j + 1]),
                ));
            }
            i = i + 1;
        }
        proof {
            assert(next@ =~= merkle_level(cur@));
            assert(next@.len() < cur@.len());
            assert(next@.len() >= 1);
        }
        cur = next;
    }
    let r = cur[0];
    r
}

// ─── Header encoding and proof of work ───────────────────────────────

fn push_header(out: &mut Vec<u8>, h: &BlockHeader)
    ensures
        final(out)@ == old(out)@ + header_enc(*h),
{
    push_le32(out, h.version);
    push_hash(out, &h.prev_hash);
    push_hash(out, &h.merkle_root);
    push_le64(out, h.timestamp);
    push_le32(out, h.difficulty_target);
    push_le64(out, h.nonce);
    push_le64(out, h.height);
    proof {
        assert(old(out)@ + header_enc(*h) =~= old(out)@ + le_bytes_n(h.version as nat, 4)
            + hash_bytes(h.prev_hash) + hash_bytes(h.merkle_root) + le_bytes_n(h.timestamp as nat, 8)
            + le_bytes_n(h.difficulty_target as nat, 4) + le_bytes_n(h.nonce as nat, 8)
            + le_bytes_n(h.height as nat, 8));
    }
}

/// The proof-of-work hash of a header: the memory-hard hash of its
/// canonical encoding.
pub open spec fn spec_header_pow_hash(h: BlockHeader) -> Hash256 {
    crate::pow::pow_spec(header_enc(h))
}

/// The fast identity hash of a header: double SHA-256 of its canonical
/// encoding.
pub open spec fn spec_header_id_hash(h: BlockHeader) -> Hash256 {
    dsha256_hash_of(header_enc(h))
}

/// Whether a header's proof-of-work hash meets its declared difficulty.
pub open spec fn spec_meets_difficulty(h: BlockHeader) -> bool {
    spec_leading_zero_bits(spec_header_pow_hash(h)) >= h.difficulty_target
}

impl BlockHeader {
    /// The canonical header encoding.
    pub fn encode(&self) -> (r: Vec<u8>)
        ensures
            r@ == header_enc(*self),
    {
        let mut out: Vec<u8> = Vec::new();
        push_header(&mut out, self);
        proof {
            assert(out@ =~= header_enc(*self));
        }
        out
    }

    /// The block's proof-of-work hash: memory-hard, used for the
    /// difficulty comparison and as the block identity.
    pub fn hash(&self) -> (h: Hash256)
        ensures
            h == spec_header_pow_hash(*self),
    {
        let enc = self.encode();
        crate::pow::equihash_x(&enc)
    }

    /// Fast hash for non-PoW purposes: double SHA-256 of the encoding.
    pub fn id_hash(&self) -> (h: Hash256)
        ensures
            h == spec_header_id_hash(*self),
    {
        let enc = self.encode();
        double_sha256_hash(enc.as_slice())
    }

    /// Whether the proof-of-work hash meets the declared difficulty
    /// target.
    pub fn meets_difficulty(&self) -> (b: bool)
        ensures
            b == spec_meets_difficulty(*self),
    {
        let h = self.hash();
        let lz = leading_zero_bits(&h);
        lz >= self.difficulty_target
    }
}


// ─── Transaction copying ─────────────────────────────────────────────

/// Two transactions with the same field views: equal scalars, equal
/// output lists, and input lists equal field by field.
pub open spec fn tx_view_eq(a: Transaction, b: Transaction) -> bool {
    &&& a.version == b.version
    &&& a.lock_time == b.lock_time
    &&& a.outputs@ == b.outputs@
    &&& a.inputs@.len() == b.inputs@.len()
    &&& (forall|i: int|
        0 <= i < a.inputs@.len() ==> {
            &&& (#[trigger] a.inputs@[i]).previous_output == (#[trigger] b.inputs@[i]).previous_output
            &&& a.inputs@[i].sequence == b.inputs@[i].sequence
            &&& a.inputs@[i].signature@ == b.inputs@[i].signature@
            &&& a.inputs@[i].pubkey@ == b.inputs@[i].pubkey@
        })
}

/// View-equal transactions have identical canonical encodings, and so
/// identical identifiers and signing hashes: the hashes depend only on
/// the canonically re-encoded fields.
pub proof fn lemma_tx_view_eq_encodings(a: Transaction, b: Transaction)
    requires
        tx_view_eq(a, b),
    ensures
        txid_enc(a) == txid_enc(b),
        wtxid_enc(a) == wtxid_enc(b),
        tx_body_enc(a) == tx_body_enc(b),
        spec_txid(a) == spec_txid(b),
        spec_wtxid(a) == spec_wtxid(b),
        forall|i: int, prev: TxOutput|
            spec_tx_signing_hash_v1(a, i, prev) == #[trigger] spec_tx_signing_hash_v1(b, i, prev),
{
    lemma_inputs_enc_prefix(a.inputs@, b.inputs@, a.inputs@.len() as int);
    assert(a.inputs@.subrange(0, a.inputs@.len() as int) =~= a.inputs@);
    assert(b.inputs@.subrange(0, b.inputs@.len() as int) =~= b.inputs@);
    assert forall|i: int, prev: TxOutput|
        spec_tx_signing_hash_v1(a, i, prev) == #[trigger] spec_tx_signing_hash_v1(
            b,
            i,
            prev,
        ) by {
        lemma_inputs_sig_enc_prefix(a.inputs@, b.inputs@, a.inputs@.len() as int, i, prev);
    }
}

/// Field-view-equal input prefixes contribute equal signing encodings.
proof fn lemma_inputs_sig_enc_prefix(
    a: Seq<TxInput>,
    b: Seq<TxInput>,
    n: int,
    idx: int,
    prev: TxOutput,
)
    requires
        0 <= n <= a.len(),
        a.len() == b.len(),
        forall|i: int|
            0 <= i < a.len() ==> {
                &&& (#[trigger] a[i]).previous_output == (#[trigger] b[i]).previous_output
                &&& a[i].sequence == b[i].sequence
                &&& a[i].signature@ == b[i].signature@
                &&& a[i].pubkey@ == b[i].pubkey@
            },
    ensures
        inputs_sig_enc(a.subrange(0, n), idx, prev) == inputs_sig_enc(b.subrange(0, n), idx, prev),
    decreases n,
{
    if n == 0 {
        assert(a.subrange(0, 0) =~= Seq::<TxInput>::empty());
        assert(b.subrange(0, 0) =~= Seq::<TxInput>::empty());
    } else {
        lemma_inputs_sig_enc_prefix(a, b, n - 1, idx, prev);
        assert(a.subrange(0, n).drop_last() =~= a.subrange(0, n - 1));
        assert(b.subrange(0, n).drop_last() =~= b.subrange(0, n - 1));
        assert(a.subrange(0, n).last() == a[n - 1]);
        assert(b.subrange(0, n).last() == b[n - 1]);
        assert(sig_input_enc(a[n - 1], n - 1 == idx, prev) == sig_input_enc(
            b[n - 1],
            n - 1 == idx,
            prev,
        ));
    }
}

/// Field-view-equal input prefixes have equal identifier and full
/// encodings.
proof fn lemma_inputs_enc_prefix(a: Seq<TxInput>, b: Seq<TxInput>, n: int)
    requires
        0 <= n <= a.len(),
        a.len() == b.len(),
        forall|i: int|
            0 <= i < a.len() ==> {
                &&& (#[trigger] a[i]).previous_output == (#[trigger] b[i]).previous_output
                &&& a[i].sequence == b[i].sequence
                &&& a[i].signature@ == b[i].signature@
                &&& a[i].pubkey@ == b[i].pubkey@
            },
    ensures
        inputs_id_enc(a.subrange(0, n)) == inputs_id_enc(b.subrange(0, n)),
        inputs_full_enc(a.subrange(0, n)) == inputs_full_enc(b.subrange(0, n)),
    decreases n,
{
    if n == 0 {
        assert(a.subrange(0, 0) =~= Seq::<TxInput>::empty());
        assert(b.subrange(0, 0) =~= Seq::<TxInput>::empty());
    } else {
        lemma_inputs_enc_prefix(a, b, n - 1);
        assert(a.subrange(0, n).drop_last() =~= a.subrange(0, n - 1));
        assert(b.subrange(0, n).drop_last() =~= b.subrange(0, n - 1));
        assert(a.subrange(0, n).last() == a[n - 1]);
        assert(b.subrange(0, n).last() == b[n - 1]);
        assert(input_id_enc(a[n - 1]) == input_id_enc(b[n - 1]));
        assert(input_full_enc(a[n - 1]) == input_full_enc(b[n - 1]));
    }
}

/// View-equal transactions are equally encodable.
pub proof fn lemma_tx_view_eq_encodable(a: Transaction, b: Transaction)
    requires
        tx_view_eq(a, b),
        tx_encodable(b),
    ensures
        tx_encodable(a),
{
    assert forall|j: int| 0 <= j < a.inputs@.len() implies (
    #[trigger] a.inputs@[j]).signature@.len() <= u32::MAX && a.inputs@[j].pubkey@.len()
        <= u32::MAX by {
        assert(a.inputs@[j].signature@ == b.inputs@[j].signature@);
        assert(a.inputs@[j].pubkey@ == b.inputs@[j].pubkey@);
        assert(b.inputs@[j].signature@.len() <= u32::MAX && b.inputs@[j].pubkey@.len()
            <= u32::MAX);
    }
}

/// Copy one input, field by field.
fn clone_input(i: &TxInput) -> (r: TxInput)
    ensures
        r.previous_output == i.previous_output,
        r.sequence == i.sequence,
        r.signature@ == i.signature@,
        r.pubkey@ == i.pubkey@,
{
    TxInput {
        previous_output: i.previous_output,
        signature: clone_bytes(&i.signature),
        pubkey: clone_bytes(&i.pubkey),
        sequence: i.sequence,
    }
}

/// Copy a byte vector.
pub fn clone_bytes(src: &Vec<u8>) -> (r: Vec<u8>)
    ensures
        r@ == src@,
{
    let mut out: Vec<u8> = Vec::new();
    let n = src.len();
    let mut i: usize = 0;
    while i < n
        invariant
            i <= n,
            n == src@.len(),
            out@ == src@.subrange(0, i as int),
        decreases n - i,
    {
        out.push(src[i]);
        proof {
            assert(out@ =~= src@.subrange(0, i + 1));
        }
        i = i + 1;
    }
    proof {
        assert(src@.subrange(0, n as int) =~= src@);
    }
    out
}

/// Copy a transaction, field by field, so its views are preserved.
pub fn clone_tx(tx: &Transaction) -> (r: Transaction)
    ensures
        tx_view_eq(r, *tx),
{
    let mut inputs: Vec<TxInput> = Vec::new();
    let n = tx.inputs.len();
    let mut i: usize = 0;
    while i < n
        invariant
            i <= n,
            n == tx.inputs@.len(),
            inputs@.len() == i,
            forall|j: int|
                0 <= j < i ==> {
                    &&& (#[trigger] inputs@[j]).previous_output == (
                    #[trigger] tx.inputs@[j]).previous_output
                    &&& inputs@[j].sequence == tx.inputs@[j].sequence
                    &&& inputs@[j].signature@ == tx.inputs@[j].signature@
                    &&& inputs@[j].pubkey@ == tx.inputs@[j].pubkey@
                },
        decreases n - i,
    {
        inputs.push(clone_input(&tx.inputs[i]));
        i = i + 1;
    }
    let mut outputs: Vec<TxOutput> = Vec::new();
    let m = tx.outputs.len();
    let mut j: usize = 0;
    while j < m
        invariant
            j <= m,
            m == tx.outputs@.len(),
            outputs@ == tx.outputs@.subrange(0, j as int),
        decreases m - j,
    {
        outputs.push(tx.outputs[j]);
        proof {
            assert(outputs@ =~= tx.outputs@.subrange(0, j + 1));
        }
        j = j + 1;
    }
    proof {
        assert(tx.outputs@.subrange(0, m as int) =~= tx.outputs@);
    }
    Transaction { version: tx.version, inputs, outputs, lock_time: tx.lock_time }
}

} // verus!
