//! The minimal pay-to-pubkey-hash script templates: builders, parsers
//! and spend validation.

use vstd::prelude::*;
use crate::hashes::{Hash256, hash_bytes, hash_of_bytes, dsha256_hash_of, lemma_hash_bytes_len,
    lemma_hash_bytes_roundtrip};
use crate::types::{Transaction, TxInput, TxOutput, tx_encodable, spec_tx_signing_hash_v1,
    tx_signing_hash_v1};
use crate::crypto::spec_verify_signature;

verus! {

/// Duplicate the top stack item.
pub const OP_DUP: u8 = 0x76;

/// Replace the top stack item with its double SHA-256.
pub const OP_HASH256: u8 = 0xAA;

/// Pop two items and fail unless they are equal.
pub const OP_EQUALVERIFY: u8 = 0x88;

/// Check a signature against a public key.
pub const OP_CHECKSIG: u8 = 0xAC;

/// Push the following length-prefixed data.
pub const OP_PUSHDATA1: u8 = 0x4C;

/// Why a script failed to parse or validate.
#[derive(Debug)]
pub enum ScriptError {
    NonStandard,
    BadEncoding,
    PubkeyHashMismatch,
    BadSignature,
}

/// The standard locking script for a pubkey hash.
pub open spec fn spec_script_p2pkh(h: Hash256) -> Seq<u8> {
    seq![OP_DUP, OP_HASH256, OP_PUSHDATA1, 32u8] + hash_bytes(h) + seq![OP_EQUALVERIFY, OP_CHECKSIG]
}

/// Build the standard locking script for a 32-byte pubkey hash.
pub fn script_p2pkh(pubkey_hash: &Hash256) -> (r: Vec<u8>)
    ensures
        r@ == spec_script_p2pkh(*pubkey_hash),
        r@.len() == 38,
{
    let mut s: Vec<u8> = Vec::new();
    s.push(OP_DUP);
    s.push(OP_HASH256);
    s.push(OP_PUSHDATA1);
    s.push(32);
    let hb = pubkey_hash.to_bytes();
    let mut i: usize = 0;
    let n = hb.len();
    while i < n
        invariant
            i <= n,
            n == hb@.len(),
            s@ == seq![OP_DUP, OP_HASH256, OP_PUSHDATA1, 32u8] + hb@.subrange(0, i as int),
        decreases n - i,
    {
        s.push(hb[i]);
        proof {
            assert(s@ =~= seq![OP_DUP, OP_HASH256, OP_PUSHDATA1, 32u8] + hb@.subrange(0, i + 1));
        }
        i = i + 1;
    }
    proof {
        assert(hb@.subrange(0, n as int) =~= hb@);
    }
    s.push(OP_EQUALVERIFY);
    s.push(OP_CHECKSIG);
    proof {
        lemma_hash_bytes_len(*pubkey_hash);
        assert(s@ =~= spec_script_p2pkh(*pubkey_hash));
    }
    s
}

/// The standard unlocking script: a 64-byte signature and a 32-byte key.
pub open spec fn spec_script_sig_p2pkh(sig: Seq<u8>, pubkey: Seq<u8>) -> Seq<u8> {
    seq![OP_PUSHDATA1, 64u8] + sig + seq![OP_PUSHDATA1, 32u8] + pubkey
}

/// Build the unlocking script for a signature and public key.
pub fn script_sig_p2pkh(sig64: &Vec<u8>, pubkey32: &Vec<u8>) -> (r: Vec<u8>)
    requires
        sig64@.len() == 64,
        pubkey32@.len() == 32,
    ensures
        r@ == spec_script_sig_p2pkh(sig64@, pubkey32@),
        r@.len() == 100,
{
    let mut s: Vec<u8> = Vec::new();
    s.push(OP_PUSHDATA1);
    s.push(64);
    append(&mut s, sig64);
    s.push(OP_PUSHDATA1);
    s.push(32);
    append(&mut s, pubkey32);
    proof {
        assert(s@ =~= spec_script_sig_p2pkh(sig64@, pubkey32@));
    }
    s
}

fn append(out: &mut Vec<u8>, bytes: &Vec<u8>)
    ensures
        final(out)@ == old(out)@ + bytes@,
{
    let mut i: usize = 0;
    let n = bytes.len();
    while i < n
        invariant
            i <= n,
            n == bytes@.len(),
            out@ == old(out)@ + bytes@.subrange(0, i as int),
        decreases n - i,
    {
        out.push(bytes[i]);
        proof {
            assert(out@ =~= old(out)@ + bytes@.subrange(0, i + 1));
        }
        i = i + 1;
    }
    proof {
        assert(bytes@.subrange(0, n as int) =~= bytes@);
    }
}

/// Whether a byte string is a well-formed unlocking script.
pub open spec fn script_sig_well_formed(s: Seq<u8>) -> bool {
    &&& s.len() == 100
    &&& s[0] == OP_PUSHDATA1
    &&& s[1] == 64
    &&& s[66] == OP_PUSHDATA1
    &&& s[67] == 32
}

/// Parse an unlocking script into its signature and public key.
pub fn parse_script_sig_p2pkh(script_sig: &Vec<u8>) -> (r: Result<(Vec<u8>, Vec<u8>), ScriptError>)
    ensures
        match r {
            Ok((sig, pk)) => script_sig_well_formed(script_sig@) && sig@ == script_sig@.subrange(
                2,
                66,
            ) && pk@ == script_sig@.subrange(68, 100),
            Err(_) => !script_sig_well_formed(script_sig@),
        },
{
    if script_sig.len() != 100 {
        return Err(ScriptError::BadEncoding);
    }
    if script_sig[0] != OP_PUSHDATA1 || script_sig[1] != 64 {
        return Err(ScriptError::BadEncoding);
    }
    if script_sig[66] != OP_PUSHDATA1 || script_sig[67] != 32 {
        return Err(ScriptError::BadEncoding);
    }
    let mut sig: Vec<u8> = Vec::new();
    let mut i: usize = 2;
    while i < 66
        invariant
            2 <= i <= 66,
            script_sig@.len() == 100,
            sig@ == script_sig@.subrange(2, i as int),
        decreases 66 - i,
    {
        sig.push(script_sig[i]);
        proof {
            assert(sig@ =~= script_sig@.subrange(2, i + 1));
        }
        i = i + 1;
    }
    let mut pk: Vec<u8> = Vec::new();
    let mut j: usize = 68;
    while j < 100
        invariant
            68 <= j <= 100,
            script_sig@.len() == 100,
            pk@ == script_sig@.subrange(68, j as int),
        decreases 100 - j,
    {
        pk.push(script_sig[j]);
        proof {
            assert(pk@ =~= script_sig@.subrange(68, j + 1));
        }
        j = j + 1;
    }
    Ok((sig, pk))
}

/// Whether a byte string is a well-formed locking script.
pub open spec fn script_pubkey_well_formed(s: Seq<u8>) -> bool {
    &&& s.len() == 38
    &&& s[0] == OP_DUP
    &&& s[1] == OP_HASH256
    &&& s[2] == OP_PUSHDATA1
    &&& s[3] == 32
    &&& s[36] == OP_EQUALVERIFY
    &&& s[37] == OP_CHECKSIG
}

/// Parse a locking script into the pubkey hash it pays.
pub fn parse_script_pubkey_p2pkh(script_pubkey: &Vec<u8>) -> (r: Result<Hash256, ScriptError>)
    ensures
        match r {
            Ok(h) => script_pubkey_well_formed(script_pubkey@) && h == hash_of_bytes(
                script_pubkey@.subrange(4, 36),
            ),
            Err(_) => !script_pubkey_well_formed(script_pubkey@),
        },
{
    if script_pubkey.len() != 38 {
        return Err(ScriptError::NonStandard);
    }
    if script_pubkey[0] != OP_DUP || script_pubkey[1] != OP_HASH256 || script_pubkey[2]
        != OP_PUSHDATA1 || script_pubkey[3] != 32 || script_pubkey[36] != OP_EQUALVERIFY
        || script_pubkey[37] != OP_CHECKSIG {
        return Err(ScriptError::NonStandard);
    }
    let mut hb: Vec<u8> = Vec::new();
    let mut i: usize = 4;
    while i < 36
        invariant
            4 <= i <= 36,
            script_pubkey@.len() == 38,
            hb@ == script_pubkey@.subrange(4, i as int),
        decreases 36 - i,
    {
        hb.push(script_pubkey[i]);
        proof {
            assert(hb@ =~= script_pubkey@.subrange(4, i + 1));
        }
        i = i + 1;
    }
    proof {
        assert(hb@.len() == 32);
    }
    Ok(Hash256::from_bytes(hb.as_slice()))
}

/// Validate a pay-to-pubkey-hash spend: the input's key must hash to
/// the spent output's owner, and its signature must verify over the
/// canonical signing hash binding that output.
pub fn validate_p2pkh_spend(
    tx: &Transaction,
    input_index: usize,
    input: &TxInput,
    prev_output: &TxOutput,
) -> (r: Result<(), ScriptError>)
    requires
        tx_encodable(*tx),
    ensures
        r is Ok <==> {
            &&& input.signature@.len() == 64
            &&& input.pubkey@.len() == 32
            &&& dsha256_hash_of(input.pubkey@) == prev_output.pubkey_hash
            &&& spec_verify_signature(
                input.pubkey@,
                hash_bytes(spec_tx_signing_hash_v1(*tx, input_index as int, *prev_output)),
                input.signature@,
            )
        },
{
    if input.signature.len() != 64 || input.pubkey.len() != 32 {
        return Err(ScriptError::BadEncoding);
    }
    let derived = crate::hashes::pubkey_bytes_to_hash(input.pubkey.as_slice());
    if derived != prev_output.pubkey_hash {
        return Err(ScriptError::PubkeyHashMismatch);
    }
    let sighash = tx_signing_hash_v1(tx, input_index, prev_output);
    let msg = sighash.to_bytes();
    if !crate::crypto::verify_signature(
        input.pubkey.as_slice(),
        msg.as_slice(),
        input.signature.as_slice(),
    ) {
        return Err(ScriptError::BadSignature);
    }
    Ok(())
}

} // verus!
