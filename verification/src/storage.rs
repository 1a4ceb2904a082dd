//! Key encodings and entry layout of the persistent store. The chain
//! engine emits these keys; the database itself lives outside the
//! verified library.

use vstd::prelude::*;
use crate::hashes::{Hash256, hash_bytes, hash_of_bytes, lemma_hash_bytes_len,
    lemma_hash_bytes_roundtrip, be_bytes_n, lemma_be_bytes_n_len};
use crate::types::{OutPoint, TxOutput};
use crate::utxo::UtxoEntry;

verus! {

/// Why a stored value could not be decoded.
#[derive(Debug)]
pub enum StorageError {
    DbError(String),
    SerializeError(String),
}

/// The flat form of a UTXO entry as persisted.
pub struct StoredUtxoEntry {
    pub amount: u64,
    pub pubkey_hash: Hash256,
    pub height: u64,
    pub is_coinbase: bool,
}

impl StoredUtxoEntry {
    /// Flatten a UTXO entry for storage.
    pub fn from_entry(entry: &UtxoEntry) -> (r: StoredUtxoEntry)
        ensures
            r.amount == entry.output.amount,
            r.pubkey_hash == entry.output.pubkey_hash,
            r.height == entry.height,
            r.is_coinbase == entry.is_coinbase,
    {
        StoredUtxoEntry {
            amount: entry.output.amount,
            pubkey_hash: entry.output.pubkey_hash,
            height: entry.height,
            is_coinbase: entry.is_coinbase,
        }
    }

    /// Rebuild the in-memory UTXO entry.
    pub fn to_utxo_entry(&self) -> (r: UtxoEntry)
        ensures
            r.output.amount == self.amount,
            r.output.pubkey_hash == self.pubkey_hash,
            r.height == self.height,
            r.is_coinbase == self.is_coinbase,
    {
        UtxoEntry {
            output: TxOutput { amount: self.amount, pubkey_hash: self.pubkey_hash },
            height: self.height,
            is_coinbase: self.is_coinbase,
        }
    }
}

/// A prefix followed by raw key data.
pub open spec fn spec_prefixed_key(prefix: Seq<u8>, data: Seq<u8>) -> Seq<u8> {
    prefix + data
}

/// Concatenate a key prefix and key data.
pub fn prefixed_key(prefix: &Vec<u8>, data: &Vec<u8>) -> (r: Vec<u8>)
    ensures
        r@ == spec_prefixed_key(prefix@, data@),
{
    let mut key: Vec<u8> = Vec::new();
    push_all(&mut key, prefix);
    push_all(&mut key, data);
    key
}

fn push_all(out: &mut Vec<u8>, bytes: &Vec<u8>)
    ensures
        final(out)@ == old(out)@ + bytes@,
{
    let mut i: usize = 0;
    let n = bytes.len();
    while i < n
        invariant
            i <= n,
            n == bytes@.len(),
            out@ == old(out)@ + bytes@.subrange(0, i as int),
        decreases n - i,
    {
        out.push(bytes[i]);
        proof {
            assert(out@ =~= old(out)@ + bytes@.subrange(0, i + 1));
        }
        i = i + 1;
    }
    proof {
        assert(bytes@.subrange(0, n as int) =~= bytes@);
    }
}


/// The four big-endian bytes of a 32-bit value, written out.
proof fn lemma_be4(x: u32)
    ensures
        be_bytes_n(x as nat, 4) == seq![
            ((x / 0x1000000) % 256) as u8,
            ((x / 0x10000) % 256) as u8,
            ((x / 0x100) % 256) as u8,
            (x % 256) as u8,
        ],
{
    let n = x as nat;
    vstd::arithmetic::div_mod::lemma_div_denominator(n as int, 256, 256);
    vstd::arithmetic::div_mod::lemma_div_denominator(n as int, 65536, 256);
    vstd::arithmetic::div_mod::lemma_div_denominator(n as int, 256, 65536);
    assert(n / 256 / 256 == n / 65536);
    assert(n / 65536 / 256 == n / 16777216);
    assert(be_bytes_n(n, 4) =~= seq![
        ((x / 0x1000000) % 256) as u8,
        ((x / 0x10000) % 256) as u8,
        ((x / 0x100) % 256) as u8,
        (x % 256) as u8,
    ]) by {
        reveal_with_fuel(be_bytes_n, 5);
    }
}

/// The UTXO-column prefix: the ASCII bytes of `utx:`.
pub open spec fn utxo_prefix() -> Seq<u8> {
    seq![0x75u8, 0x74u8, 0x78u8, 0x3Au8]
}

/// A UTXO key: the prefix, the txid's 32 bytes, and the output index
/// big-endian.
pub open spec fn spec_utxo_key(op: OutPoint) -> Seq<u8> {
    utxo_prefix() + hash_bytes(op.txid) + be_bytes_n(op.vout as nat, 4)
}

/// Build the storage key of an outpoint.
pub fn utxo_key(outpoint: &OutPoint) -> (r: Vec<u8>)
    ensures
        r@ == spec_utxo_key(*outpoint),
        r@.len() == 40,
{
    let mut key: Vec<u8> = Vec::new();
    key.push(0x75);
    key.push(0x74);
    key.push(0x78);
    key.push(0x3A);
    let hb = outpoint.txid.to_bytes();
    push_all(&mut key, &hb);
    // The index, most significant byte first.
    let v = outpoint.vout;
    key.push((v / 0x1000000 % 256) as u8);
    key.push((v / 0x10000 % 256) as u8);
    key.push((v / 0x100 % 256) as u8);
    key.push((v % 256) as u8);
    proof {
        lemma_hash_bytes_len(outpoint.txid);
        lemma_be4(outpoint.vout);
        assert(key@ =~= spec_utxo_key(*outpoint));
    }
    key
}

/// Recover the outpoint from a UTXO storage key.
#[verifier::rlimit(30)]
pub fn outpoint_from_utxo_key(key: &Vec<u8>) -> (r: Result<OutPoint, StorageError>)
    ensures
        r is Ok ==> key@.len() == 40,
        key@.len() == 40 ==> r is Ok,
        forall|op: OutPoint| key@ == spec_utxo_key(op) ==> (r matches Ok(o) ==> o == op),
    decreases key@.len(),
{
    if key.len() != 40 {
        let m: &str = "invalid UTXO key length";
        return Err(StorageError::SerializeError(m.to_owned()));
    }
    let mut hb: Vec<u8> = Vec::new();
    let mut i: usize = 4;
    while i < 36
        invariant
            4 <= i <= 36,
            key@.len() == 40,
            hb@ == key@.subrange(4, i as int),
        decreases 36 - i,
    {
        hb.push(key[i]);
        proof {
            assert(hb@ =~= key@.subrange(4, i + 1));
        }
        i = i + 1;
    }
    let txid = Hash256::from_bytes(hb.as_slice());
    let vout: u32 = (key[36] as u32) * 0x1000000 + (key[37] as u32) * 0x10000 + (key[38] as u32)
        * 0x100 + (key[39] as u32);
    let r = OutPoint { txid, vout };
    proof {
        assert forall|op: OutPoint| key@ == spec_utxo_key(op) implies r == op by {
            lemma_hash_bytes_len(op.txid);
            lemma_be_bytes_n_len(op.vout as nat, 4);
            assert(key@.subrange(4, 36) =~= hash_bytes(op.txid));
            lemma_hash_bytes_roundtrip(op.txid);
            let vb = be_bytes_n(op.vout as nat, 4);
            assert(key@[36] == vb[0] && key@[37] == vb[1] && key@[38] == vb[2] && key@[39]
                == vb[3]);
            lemma_be4(op.vout);
        }
    }
    Ok(r)
}

} // verus!
