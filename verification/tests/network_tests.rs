use equiforge::scoreboard::{PeerScoreboard, Offense, BAN_DURATION};
use equiforge::mempool::Mempool;
use equiforge::hashes::Hash256;
use equiforge::types::{Transaction, TxOutput, txid_v1};
use equiforge::net::{frame_payload, parse_frame_header, handshake_decision, HandshakeDecision,
    FrameError, build_locator, locator_rendezvous, offense_for_block_error, compact_event,
    CompactAction, CompactEvent, PendingCompact, PENDING_COMPACT_TTL};
use equiforge::chain::BlockError;
use equiforge::keymap::KeyMap;
use equiforge::chain::Chain;
use equiforge::params::init_network;
use equiforge::script::{script_p2pkh, script_sig_p2pkh, parse_script_pubkey_p2pkh,
    parse_script_sig_p2pkh};
use equiforge::storage::{utxo_key, outpoint_from_utxo_key};
use equiforge::types::OutPoint;

#[test]
fn test_ban_system() {
    let now = 1_000_000u64;
    let mut sb = PeerScoreboard::new();
    assert!(!sb.is_banned("1.2.3.4:9333", now));
    sb.record_offense("1.2.3.4:9333", Offense::InvalidTransaction, now);
    assert!(!sb.is_banned("1.2.3.4:9333", now));
    sb.record_offense("1.2.3.4:9333", Offense::InvalidTransaction, now);
    sb.record_offense("1.2.3.4:9333", Offense::InvalidBlock, now);
    assert!(!sb.is_banned("1.2.3.4:9333", now));
    // Strikes accumulate per IP until the threshold of twenty.
    for _ in 0..5 {
        sb.record_offense("1.2.3.4:9333", Offense::MalformedMessage, now);
    }
    sb.record_offense("1.2.3.4:9333", Offense::InvalidTransaction, now);
    assert!(sb.is_banned("1.2.3.4:9333", now));
    // Different port, same IP: still banned.
    assert!(sb.is_banned("1.2.3.4:1234", now));
}

#[test]
fn ban_threshold_progression() {
    // Five malformed messages and three invalid transactions reach 18;
    // one more invalid transaction makes 19; a penalized block tips the
    // count past the threshold.
    let now = 5_000u64;
    let ip = "10.0.0.7:9333";
    let mut sb = PeerScoreboard::new();
    for _ in 0..5 {
        sb.record_offense(ip, Offense::MalformedMessage, now);
    }
    for _ in 0..3 {
        sb.record_offense(ip, Offense::InvalidTransaction, now);
    }
    assert!(!sb.is_banned(ip, now));
    sb.record_offense(ip, Offense::InvalidTransaction, now);
    assert!(!sb.is_banned(ip, now));
    sb.record_offense(ip, Offense::InvalidBlock, now);
    assert!(sb.is_banned(ip, now));
    assert!(sb.is_banned("10.0.0.7:40000", now));
}

#[test]
fn ban_expires_after_cleanup() {
    let now = 10_000u64;
    let ip = "9.9.9.9:9333";
    let mut sb = PeerScoreboard::new();
    for _ in 0..7 {
        sb.record_offense(ip, Offense::MalformedMessage, now);
    }
    assert!(sb.is_banned(ip, now));
    assert_eq!(sb.ban_count(now), 1);
    let later = now + BAN_DURATION + 1;
    assert!(!sb.is_banned(ip, later));
    sb.cleanup(later);
    assert!(!sb.is_banned(ip, later));
    assert_eq!(sb.ban_count(later), 0);
}

fn tx_paying(amount: u64, owner: u8) -> Transaction {
    Transaction {
        version: 1,
        inputs: vec![],
        outputs: vec![TxOutput { amount, pubkey_hash: Hash256::from_bytes(&[owner; 32]) }],
        lock_time: 0,
    }
}

#[test]
fn test_mempool_fee_sorting() {
    let mut mp = Mempool::new(100);
    let tx1 = tx_paying(100, 0);
    let tx2 = tx_paying(200, 1);
    let tx3 = tx_paying(300, 2);
    mp.add_with_fee(tx_paying(100, 0), 100);
    mp.add_with_fee(tx_paying(200, 1), 5000);
    mp.add_with_fee(tx_paying(300, 2), 1000);
    let pending = mp.get_pending();
    assert_eq!(pending.len(), 3);
    // Highest fee rate first.
    assert_eq!(pending[0].hash(), tx2.hash());
    assert_eq!(pending[1].hash(), tx3.hash());
    assert_eq!(pending[2].hash(), tx1.hash());
    let _ = (tx1, tx3);
}

#[test]
fn mempool_rejects_duplicates_and_overflow() {
    let mut mp = Mempool::new(2);
    assert!(mp.add_with_fee(tx_paying(1, 1), 10));
    assert!(!mp.add_with_fee(tx_paying(1, 1), 10));
    assert!(mp.add_with_fee(tx_paying(2, 2), 10));
    assert!(!mp.add_with_fee(tx_paying(3, 3), 10));
    assert_eq!(mp.len(), 2);
    assert!(!mp.is_empty());
    assert!(mp.contains_txid(&txid_v1(&tx_paying(1, 1))));
}

#[test]
fn framing_round_trip() {
    let magic = [0xEF, 0x01, 0xF0, 0x42];
    let payload = vec![1u8, 2, 3, 4, 5];
    let frame = frame_payload(&magic, &payload);
    assert_eq!(frame.len(), 8 + payload.len());
    let header: Vec<u8> = frame[..8].to_vec();
    let n = parse_frame_header(&header, &magic).unwrap();
    assert_eq!(n, payload.len());
    assert_eq!(&frame[8..], &payload[..]);
}

#[test]
fn framing_rejects_bad_magic_and_oversize() {
    let magic = [0xEF, 0x01, 0xF0, 0x42];
    let other = [0xEF, 0x01, 0xF0, 0x99];
    let payload = vec![0u8; 4];
    let frame = frame_payload(&other, &payload);
    let header: Vec<u8> = frame[..8].to_vec();
    assert!(matches!(parse_frame_header(&header, &magic), Err(FrameError::BadMagic)));
    // A length field over 64 MiB closes the connection.
    let mut big = vec![0xEF, 0x01, 0xF0, 0x42, 0xFF, 0xFF, 0xFF, 0xFF];
    assert!(matches!(parse_frame_header(&big, &magic), Err(FrameError::TooLarge)));
    big[7] = 0x04;
    assert!(matches!(parse_frame_header(&big, &magic), Err(FrameError::TooLarge)));
}

#[test]
fn handshake_rules() {
    let g1 = Hash256::from_bytes(&[1u8; 32]);
    let g2 = Hash256::from_bytes(&[2u8; 32]);
    assert!(matches!(
        handshake_decision(3, &g1, &g1),
        HandshakeDecision::RejectOldProtocol
    ));
    assert!(matches!(
        handshake_decision(4, &g2, &g1),
        HandshakeDecision::RejectWrongGenesis
    ));
    assert!(matches!(handshake_decision(4, &g1, &g1), HandshakeDecision::Accept));
}

#[test]
fn locator_starts_at_tip_and_ends_at_genesis() {
    let chain = Chain::new(init_network(false).genesis_timestamp());
    let locator = build_locator(&chain, 32);
    assert!(!locator.is_empty());
    assert_eq!(locator[0], chain.tip);
    assert_eq!(*locator.last().unwrap(), chain.genesis_hash());
}

#[test]
fn script_round_trips() {
    let h = Hash256::from_bytes(&[0x42u8; 32]);
    let spk = script_p2pkh(&h);
    assert_eq!(spk.len(), 38);
    assert_eq!(parse_script_pubkey_p2pkh(&spk).unwrap(), h);

    let sig = vec![7u8; 64];
    let pk = vec![9u8; 32];
    let ssig = script_sig_p2pkh(&sig, &pk);
    assert_eq!(ssig.len(), 100);
    let (sig2, pk2) = parse_script_sig_p2pkh(&ssig).unwrap();
    assert_eq!(sig2, sig);
    assert_eq!(pk2, pk);

    // A corrupted opcode is refused.
    let mut bad = spk.clone();
    bad[0] = 0x00;
    assert!(parse_script_pubkey_p2pkh(&bad).is_err());
}

#[test]
fn utxo_key_round_trip() {
    let op = OutPoint { txid: Hash256::from_bytes(&[0xA1u8; 32]), vout: 0x01020304 };
    let key = utxo_key(&op);
    assert_eq!(key.len(), 40);
    let back = outpoint_from_utxo_key(&key).unwrap();
    assert_eq!(back, op);
    let short = vec![0u8; 10];
    assert!(outpoint_from_utxo_key(&short).is_err());
}

#[test]
fn cleanup_gives_a_fresh_start() {
    // After a ban expires and is cleaned, the strike count restarts.
    let now = 50_000u64;
    let ip = "6.6.6.6:9333";
    let mut sb = PeerScoreboard::new();
    for _ in 0..7 {
        sb.record_offense(ip, Offense::MalformedMessage, now);
    }
    assert!(sb.is_banned(ip, now));
    let later = now + BAN_DURATION + 1;
    sb.cleanup(later);
    assert!(!sb.is_banned(ip, later));
    // One more malformed message alone cannot re-ban a fresh counter.
    let banned = sb.record_offense(ip, Offense::MalformedMessage, later);
    assert!(!banned);
    assert!(!sb.is_banned(ip, later));
}

fn tx_spending(outpoint: OutPoint, amount: u64, owner: u8) -> Transaction {
    Transaction {
        version: 1,
        inputs: vec![equiforge::types::TxInput {
            previous_output: outpoint,
            signature: vec![],
            pubkey: vec![],
            sequence: 0xFFFFFFFF,
        }],
        outputs: vec![TxOutput { amount, pubkey_hash: Hash256::from_bytes(&[owner; 32]) }],
        lock_time: 0,
    }
}

#[test]
fn remove_confirmed_evicts_conflicts_and_keeps_the_rest() {
    let op_spent = OutPoint { txid: Hash256::from_bytes(&[0xAAu8; 32]), vout: 0 };
    let op_other = OutPoint { txid: Hash256::from_bytes(&[0xBBu8; 32]), vout: 1 };
    let mut mp = Mempool::new(100);
    assert!(mp.add_with_fee(tx_spending(op_spent, 5, 1), 10));
    assert!(mp.add_with_fee(tx_spending(op_other, 6, 2), 20));
    assert_eq!(mp.len(), 2);
    // A block whose transaction consumes `op_spent` evicts the first
    // entry and leaves the second alone.
    let coinbase = Transaction::new_coinbase(
        1,
        50 * equiforge::params::COIN,
        Hash256::from_bytes(&[1u8; 32]),
        Hash256::from_bytes(&[0xCFu8; 32]),
    );
    let conflict = tx_spending(op_spent, 4, 3);
    let block = equiforge::types::Block {
        header: equiforge::types::BlockHeader {
            version: 4,
            prev_hash: Hash256::from_bytes(&[0u8; 32]),
            merkle_root: Hash256::from_bytes(&[0u8; 32]),
            timestamp: 1,
            difficulty_target: 0,
            nonce: 0,
            height: 1,
        },
        transactions: vec![coinbase, conflict],
    };
    mp.remove_confirmed(&block);
    assert_eq!(mp.len(), 1);
    assert!(mp.contains_txid(&txid_v1(&tx_spending(op_other, 6, 2))));
    assert!(!mp.contains_txid(&txid_v1(&tx_spending(op_spent, 5, 1))));
}

#[test]
fn locator_rendezvous_finds_known_hashes() {
    let chain = Chain::new(init_network(false).genesis_timestamp());
    let genesis = chain.genesis_hash();
    assert_eq!(locator_rendezvous(&chain, &vec![genesis]), 1);
    let unknown = Hash256::from_bytes(&[0x77u8; 32]);
    assert_eq!(locator_rendezvous(&chain, &vec![unknown]), 0);
    assert_eq!(locator_rendezvous(&chain, &vec![unknown, genesis]), 1);
}

#[test]
fn block_error_offense_classification() {
    assert!(offense_for_block_error(&BlockError::DuplicateBlock).is_none());
    assert!(offense_for_block_error(&BlockError::OrphanBlock).is_none());
    assert!(offense_for_block_error(&BlockError::InvalidHeight).is_none());
    assert!(offense_for_block_error(&BlockError::InsufficientPoW).is_some());
    assert!(offense_for_block_error(&BlockError::InvalidMerkleRoot).is_some());
    assert!(offense_for_block_error(&BlockError::TimestampTooFarInFuture).is_some());
}

#[test]
fn header_chain_prefix_stops_at_unknown_parent() {
    let chain = Chain::new(init_network(false).genesis_timestamp());
    // A difficulty-zero header hanging off the tip validates; a second
    // one with an unknown parent ends the prefix.
    let good = equiforge::types::BlockHeader {
        version: 4,
        prev_hash: chain.tip,
        merkle_root: Hash256::from_bytes(&[0u8; 32]),
        timestamp: 5,
        difficulty_target: 0,
        nonce: 0,
        height: 1,
    };
    let stray = equiforge::types::BlockHeader {
        version: 4,
        prev_hash: Hash256::from_bytes(&[9u8; 32]),
        merkle_root: Hash256::from_bytes(&[0u8; 32]),
        timestamp: 6,
        difficulty_target: 0,
        nonce: 0,
        height: 7,
    };
    let valid = chain.validate_header_chain(&vec![good, stray]);
    assert_eq!(valid.len(), 1);
    assert_eq!(valid[0], good.hash());
    // A header that fails its own declared difficulty ends the prefix.
    let heavy = equiforge::types::BlockHeader { difficulty_target: 200, ..good };
    let none = chain.validate_header_chain(&vec![heavy]);
    assert!(none.is_empty());
}

#[test]
fn compact_blocks_reconstruct_from_pool_and_batches() {
    let mut table: KeyMap<Hash256, PendingCompact> = KeyMap::new();
    let mut mp = Mempool::new(100);
    let in_pool = tx_spending(
        OutPoint { txid: Hash256::from_bytes(&[0x11u8; 32]), vout: 0 },
        3,
        1,
    );
    let absent = tx_spending(
        OutPoint { txid: Hash256::from_bytes(&[0x22u8; 32]), vout: 0 },
        4,
        2,
    );
    assert!(mp.add_with_fee(in_pool.clone(), 9));
    let coinbase = Transaction::new_coinbase(
        1,
        50 * equiforge::params::COIN,
        Hash256::from_bytes(&[1u8; 32]),
        Hash256::from_bytes(&[0xCFu8; 32]),
    );
    let header = equiforge::types::BlockHeader {
        version: 4,
        prev_hash: Hash256::from_bytes(&[0u8; 32]),
        merkle_root: Hash256::from_bytes(&[0u8; 32]),
        timestamp: 1,
        difficulty_target: 0,
        nonce: 0,
        height: 1,
    };
    // One id in the pool, one missing: the machine buffers the entry
    // and asks for the missing transaction.
    let announce = CompactEvent::Announce {
        header,
        short_txids: vec![txid_v1(&in_pool), txid_v1(&absent)],
        coinbase: coinbase.clone(),
        already_known: false,
    };
    let actions = compact_event(&mut table, &mp, announce, 100);
    assert_eq!(actions.len(), 1);
    match &actions[0] {
        CompactAction::RequestMissing(ids) => {
            assert_eq!(ids.len(), 1);
            assert_eq!(ids[0], txid_v1(&absent));
        }
        _ => panic!("expected a request for the missing transaction"),
    }
    assert_eq!(table.len(), 1);
    // The batch answer completes the entry and yields the block.
    let actions = compact_event(
        &mut table,
        &mp,
        CompactEvent::Batch { txs: vec![absent.clone()] },
        101,
    );
    assert_eq!(actions.len(), 1);
    match &actions[0] {
        CompactAction::Accept(b) => {
            assert_eq!(b.header, header);
            assert_eq!(b.transactions.len(), 3);
            assert!(b.transactions[0].is_coinbase());
            assert_eq!(txid_v1(&b.transactions[1]), txid_v1(&in_pool));
            assert_eq!(txid_v1(&b.transactions[2]), txid_v1(&absent));
        }
        _ => panic!("expected the reconstructed block"),
    }
    assert_eq!(table.len(), 0);
    // A fully poolable announcement is accepted without a round trip.
    let mut mp2 = Mempool::new(100);
    assert!(mp2.add_with_fee(in_pool.clone(), 9));
    let announce2 = CompactEvent::Announce {
        header,
        short_txids: vec![txid_v1(&in_pool)],
        coinbase: coinbase.clone(),
        already_known: false,
    };
    let actions = compact_event(&mut table, &mp2, announce2, 102);
    assert_eq!(actions.len(), 1);
    assert!(matches!(&actions[0], CompactAction::Accept(_)));
    // A known block is dropped outright.
    let announce3 = CompactEvent::Announce {
        header,
        short_txids: vec![],
        coinbase: coinbase.clone(),
        already_known: true,
    };
    assert!(compact_event(&mut table, &mp2, announce3, 103).is_empty());
}

#[test]
fn compact_entries_expire_after_the_ttl() {
    let mut table: KeyMap<Hash256, PendingCompact> = KeyMap::new();
    let mp = Mempool::new(10);
    let absent = tx_spending(
        OutPoint { txid: Hash256::from_bytes(&[0x33u8; 32]), vout: 0 },
        4,
        2,
    );
    let coinbase = Transaction::new_coinbase(
        1,
        50 * equiforge::params::COIN,
        Hash256::from_bytes(&[1u8; 32]),
        Hash256::from_bytes(&[0xCFu8; 32]),
    );
    let header = equiforge::types::BlockHeader {
        version: 4,
        prev_hash: Hash256::from_bytes(&[0u8; 32]),
        merkle_root: Hash256::from_bytes(&[0u8; 32]),
        timestamp: 1,
        difficulty_target: 0,
        nonce: 0,
        height: 1,
    };
    let announce = CompactEvent::Announce {
        header,
        short_txids: vec![txid_v1(&absent)],
        coinbase,
        already_known: false,
    };
    let actions = compact_event(&mut table, &mp, announce, 1000);
    assert!(matches!(&actions[0], CompactAction::RequestMissing(_)));
    assert_eq!(table.len(), 1);
    // Fresh at the next tick, gone once past the time to live.
    let _ = compact_event(&mut table, &mp, CompactEvent::Tick, 1000 + PENDING_COMPACT_TTL - 1);
    assert_eq!(table.len(), 1);
    let _ = compact_event(&mut table, &mp, CompactEvent::Tick, 1000 + PENDING_COMPACT_TTL);
    assert_eq!(table.len(), 0);
}
