use equiforge::pow::equihash_x;
use equiforge::hashes::{Hash256, leading_zero_bits, pubkey_bytes_to_hash, double_sha256};
use equiforge::crypto::verify_signature;
use equiforge::types::{Transaction, TxOutput, tx_signing_hash_v1};
use equiforge::script::validate_p2pkh_spend;
use equiforge::params::COIN;
use ed25519_dalek::{Signer, SigningKey};

#[test]
fn test_deterministic() {
    let header = b"test block header data with nonce 12345".to_vec();
    let hash1 = equihash_x(&header);
    let hash2 = equihash_x(&header);
    assert_eq!(hash1, hash2, "same input must produce same output");
}

#[test]
fn test_different_input_different_output() {
    let h1 = equihash_x(&b"header nonce=1".to_vec());
    let h2 = equihash_x(&b"header nonce=2".to_vec());
    assert_ne!(h1, h2, "different inputs should produce different outputs");
}

#[test]
fn test_avalanche() {
    // Changing one bit should change roughly half of the output bits.
    let input1 = vec![0u8; 80];
    let mut input2 = input1.clone();
    input2[0] = 1;

    let h1 = equihash_x(&input1).to_bytes();
    let h2 = equihash_x(&input2).to_bytes();

    let mut differing_bits = 0;
    for i in 0..32 {
        differing_bits += (h1[i] ^ h2[i]).count_ones();
    }
    assert!(differing_bits > 64, "poor avalanche: only {} bits differ", differing_bits);
    assert!(differing_bits < 192, "suspicious avalanche: {} bits differ", differing_bits);
}

#[test]
fn test_performance() {
    // The hash must be memory-hard: at least a millisecond per call.
    let header = b"benchmark header with sufficient length for testing";
    let start = std::time::Instant::now();
    let iterations = 3u32;
    for i in 0..iterations {
        let mut input = header.to_vec();
        input.extend_from_slice(&(i as u64).to_le_bytes());
        let _ = equihash_x(&input);
    }
    let elapsed = start.elapsed();
    let per_hash = elapsed / iterations;
    println!(
        "{} hashes in {:.2?} ({:.1?}/hash, {:.1} H/s)",
        iterations,
        elapsed,
        per_hash,
        iterations as f64 / elapsed.as_secs_f64()
    );
    assert!(per_hash.as_millis() >= 1, "hash too fast ({:?}), not memory-hard enough", per_hash);
}

#[test]
fn pow_hash_has_bounded_leading_zeros() {
    let h: Hash256 = equihash_x(&b"some header".to_vec());
    assert!(leading_zero_bits(&h) <= 256);
}

#[test]
fn double_sha_is_two_rounds() {
    // The wrapper output differs from a single digest and is stable.
    let a = double_sha256(b"abc");
    let b = double_sha256(b"abc");
    assert_eq!(a, b);
    assert_eq!(a.len(), 32);
    let c = double_sha256(b"abd");
    assert_ne!(a, c);
}

#[test]
fn signature_verification_accepts_and_rejects() {
    let key = SigningKey::from_bytes(&[7u8; 32]);
    let pubkey = key.verifying_key().to_bytes().to_vec();
    let msg = b"a message to sign".to_vec();
    let sig = key.sign(&msg).to_bytes().to_vec();
    assert!(verify_signature(&pubkey, &msg, &sig));
    assert!(!verify_signature(&pubkey, b"another message", &sig));
    assert!(!verify_signature(&pubkey[..31], &msg, &sig));
    assert!(!verify_signature(&pubkey, &msg, &sig[..63]));
}

#[test]
fn p2pkh_spend_validates_real_signature() {
    let key = SigningKey::from_bytes(&[9u8; 32]);
    let pubkey = key.verifying_key().to_bytes().to_vec();
    let owner = pubkey_bytes_to_hash(&pubkey);
    let prev = TxOutput { amount: 2 * COIN, pubkey_hash: owner };

    let mut tx = Transaction {
        version: 1,
        inputs: vec![equiforge::types::TxInput {
            previous_output: equiforge::types::OutPoint {
                txid: Hash256::from_bytes(&[3u8; 32]),
                vout: 0,
            },
            signature: vec![],
            pubkey: pubkey.clone(),
            sequence: 0xFFFFFFFF,
        }],
        outputs: vec![TxOutput { amount: COIN, pubkey_hash: Hash256::from_bytes(&[4u8; 32]) }],
        lock_time: 0,
    };
    let sighash = tx_signing_hash_v1(&tx, 0, &prev);
    tx.inputs[0].signature = key.sign(&sighash.to_bytes()).to_bytes().to_vec();

    let input = tx.inputs[0].clone();
    assert!(validate_p2pkh_spend(&tx, 0, &input, &prev).is_ok());

    // A different spent output breaks the binding.
    let other = TxOutput { amount: 2 * COIN + 1, pubkey_hash: owner };
    assert!(validate_p2pkh_spend(&tx, 0, &input, &other).is_err());
}
