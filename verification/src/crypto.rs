//! Signature verification for transaction authorization.

use ed25519_dalek::Verifier;
use vstd::prelude::*;

verus! {

/// Whether a signature is a valid Ed25519 signature of a message under a
/// public key: a function of the three byte strings alone.
pub uninterp spec fn ed25519_valid(pubkey: Seq<u8>, msg: Seq<u8>, sig: Seq<u8>) -> bool;

/// Relies on ed25519_dalek::VerifyingKey::from_bytes and verify:
/// deterministic in the key, message and signature bytes; a key that is
/// not a valid curve point verifies nothing.
#[verifier::external_body]
fn ed25519_verify(pubkey: &[u8], msg: &[u8], sig: &[u8]) -> (r: bool)
    requires
        pubkey@.len() == 32,
        sig@.len() == 64,
    ensures
        r == ed25519_valid(pubkey@, msg@, sig@),
{
    let key_bytes: [u8; 32] = match pubkey.try_into() {
        Ok(b) => b,
        Err(_) => return false,
    };
    let sig_bytes: [u8; 64] = match sig.try_into() {
        Ok(b) => b,
        Err(_) => return false,
    };
    let vk = match ed25519_dalek::VerifyingKey::from_bytes(&key_bytes) {
        Ok(vk) => vk,
        Err(_) => return false,
    };
    let sig = ed25519_dalek::Signature::from_bytes(&sig_bytes);
    vk.verify(msg, &sig).is_ok()
}

/// What a successful signature check means: a 32-byte key, a 64-byte
/// signature, and a valid Ed25519 signature over the message.
pub open spec fn spec_verify_signature(pubkey: Seq<u8>, msg: Seq<u8>, sig: Seq<u8>) -> bool {
    &&& pubkey.len() == 32
    &&& sig.len() == 64
    &&& ed25519_valid(pubkey, msg, sig)
}

/// Verify an Ed25519 signature; keys and signatures of the wrong length
/// are rejected outright.
pub fn verify_signature(pubkey: &[u8], message: &[u8], signature: &[u8]) -> (r: bool)
    ensures
        r == spec_verify_signature(pubkey@, message@, signature@),
{
    if pubkey.len() != 32 || signature.len() != 64 {
        return false;
    }
    ed25519_verify(pubkey, message, signature)
}

} // verus!
