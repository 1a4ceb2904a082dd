use equiforge::chain::{Chain, BlockError, create_genesis_block};
use equiforge::hashes::Hash256;
use equiforge::params::init_network;
use equiforge::types::{Block, BlockHeader, Transaction};
use equiforge::miner::{create_block_template, MinerConfig};
use equiforge::difficulty::{
    calculate_next_difficulty, calculate_next_difficulty_fractional, FP_SCALE, INITIAL_DIFFICULTY_FP,
};
use equiforge::work::Work;

fn genesis_ts() -> u64 {
    init_network(false).genesis_timestamp()
}

#[test]
fn test_chain_genesis() {
    let chain = Chain::new(genesis_ts());
    assert_eq!(chain.height, 0);
    assert!(!chain.utxo_set.is_empty());
    // Two outputs: miner and community fund.
    assert_eq!(chain.utxo_set.len(), 2);
}

#[test]
fn test_initial_difficulty() {
    let chain = Chain::new(genesis_ts());
    assert_eq!(chain.next_difficulty(), 8);
}

#[test]
fn test_cumulative_work() {
    let chain = Chain::new(genesis_ts());
    let genesis_hash = chain.tip;
    let work = *chain.cumulative_work.get(&genesis_hash).unwrap();
    assert!(work.l0 > 0 || work.l1 > 0 || work.l2 > 0 || work.l3 > 0);
    // Genesis difficulty is 8 bits, so its work is 2^8.
    assert_eq!(work, Work::from_difficulty(8));
}

#[test]
fn duplicate_genesis_is_rejected_and_state_unchanged() {
    let mut chain = Chain::new(genesis_ts());
    let genesis = create_genesis_block(genesis_ts());
    let tip_before = chain.tip;
    let height_before = chain.height;
    let utxos_before = chain.utxo_set.len();
    let r = chain.add_block(genesis, genesis_ts() + 10);
    assert!(matches!(r, Err(BlockError::DuplicateBlock)));
    assert_eq!(chain.tip, tip_before);
    assert_eq!(chain.height, height_before);
    assert_eq!(chain.utxo_set.len(), utxos_before);
}

#[test]
fn orphan_block_is_rejected() {
    let mut chain = Chain::new(genesis_ts());
    let coinbase = Transaction::new_coinbase(
        1,
        50 * equiforge::params::COIN,
        Hash256::from_bytes(&[1u8; 32]),
        Hash256::from_bytes(&[0xCFu8; 32]),
    );
    let block = Block {
        header: BlockHeader {
            version: 4,
            prev_hash: Hash256::from_bytes(&[7u8; 32]),
            merkle_root: Hash256::from_bytes(&[0u8; 32]),
            timestamp: genesis_ts() + 90,
            difficulty_target: 8,
            nonce: 0,
            height: 1,
        },
        transactions: vec![coinbase],
    };
    let r = chain.add_block(block, genesis_ts() + 100);
    assert!(matches!(r, Err(BlockError::OrphanBlock)));
    assert_eq!(chain.height, 0);
}

#[test]
fn wrong_height_is_rejected() {
    let mut chain = Chain::new(genesis_ts());
    let coinbase = Transaction::new_coinbase(
        2,
        50 * equiforge::params::COIN,
        Hash256::from_bytes(&[1u8; 32]),
        Hash256::from_bytes(&[0xCFu8; 32]),
    );
    let block = Block {
        header: BlockHeader {
            version: 4,
            prev_hash: chain.tip,
            merkle_root: Hash256::from_bytes(&[0u8; 32]),
            timestamp: genesis_ts() + 90,
            difficulty_target: 8,
            nonce: 0,
            height: 2,
        },
        transactions: vec![coinbase],
    };
    let r = chain.add_block(block, genesis_ts() + 100);
    assert!(matches!(r, Err(BlockError::InvalidHeight)));
}

#[test]
fn stale_timestamp_is_rejected() {
    let mut chain = Chain::new(genesis_ts());
    let coinbase = Transaction::new_coinbase(
        1,
        50 * equiforge::params::COIN,
        Hash256::from_bytes(&[1u8; 32]),
        Hash256::from_bytes(&[0xCFu8; 32]),
    );
    let block = Block {
        header: BlockHeader {
            version: 4,
            prev_hash: chain.tip,
            merkle_root: Hash256::from_bytes(&[0u8; 32]),
            timestamp: genesis_ts(),
            difficulty_target: 8,
            nonce: 0,
            height: 1,
        },
        transactions: vec![coinbase],
    };
    let r = chain.add_block(block, genesis_ts() + 100);
    assert!(matches!(r, Err(BlockError::InvalidTimestamp)));
}

#[test]
fn wrong_difficulty_is_rejected() {
    let mut chain = Chain::new(genesis_ts());
    let coinbase = Transaction::new_coinbase(
        1,
        50 * equiforge::params::COIN,
        Hash256::from_bytes(&[1u8; 32]),
        Hash256::from_bytes(&[0xCFu8; 32]),
    );
    let block = Block {
        header: BlockHeader {
            version: 4,
            prev_hash: chain.tip,
            merkle_root: Hash256::from_bytes(&[0u8; 32]),
            timestamp: genesis_ts() + 90,
            difficulty_target: 9,
            nonce: 0,
            height: 1,
        },
        transactions: vec![coinbase],
    };
    let r = chain.add_block(block, genesis_ts() + 100);
    match r {
        Err(BlockError::InvalidDifficulty { expected, got }) => {
            assert_eq!(expected, 8);
            assert_eq!(got, 9);
        }
        other => panic!("expected a difficulty mismatch, got {:?}", other.is_ok()),
    }
}

#[test]
fn weak_pow_or_bad_merkle_is_rejected() {
    let mut chain = Chain::new(genesis_ts());
    let coinbase = Transaction::new_coinbase(
        1,
        50 * equiforge::params::COIN,
        Hash256::from_bytes(&[1u8; 32]),
        Hash256::from_bytes(&[0xCFu8; 32]),
    );
    // Structurally fine until PoW; the merkle root is also wrong, so
    // whichever of the two checks fires first must reject it.
    let block = Block {
        header: BlockHeader {
            version: 4,
            prev_hash: chain.tip,
            merkle_root: Hash256::from_bytes(&[5u8; 32]),
            timestamp: genesis_ts() + 90,
            difficulty_target: 8,
            nonce: 12345,
            height: 1,
        },
        transactions: vec![coinbase],
    };
    let r = chain.add_block(block, genesis_ts() + 100);
    assert!(matches!(
        r,
        Err(BlockError::InsufficientPoW) | Err(BlockError::InvalidMerkleRoot)
    ));
}

#[test]
fn test_create_block_template() {
    let chain = Chain::new(genesis_ts());
    let config = MinerConfig::default();
    let pending: Vec<Transaction> = Vec::new();
    let template = create_block_template(&chain, &pending, &config, genesis_ts() + 5);
    assert_eq!(template.header.height, 1);
    assert_eq!(template.header.prev_hash, chain.tip);
    assert_eq!(template.transactions.len(), 1);
    assert!(template.transactions[0].is_coinbase());
    assert_eq!(template.header.difficulty_target, 8);
    assert!(template.header.timestamp > genesis_ts());
}

#[test]
fn difficulty_steady_at_target_spacing() {
    // Blocks exactly at the target spacing leave the difficulty alone.
    let mut ts: Vec<u64> = Vec::new();
    for i in 0..61u64 {
        ts.push(1_000_000 + i * 90);
    }
    let next = calculate_next_difficulty_fractional(8 * FP_SCALE, &ts);
    assert_eq!(next, 8 * FP_SCALE);
    assert_eq!(calculate_next_difficulty(8, &ts), 8);
}

#[test]
fn difficulty_rises_when_blocks_are_fast() {
    let mut ts: Vec<u64> = Vec::new();
    for i in 0..61u64 {
        ts.push(1_000_000 + i * 45);
    }
    let next = calculate_next_difficulty_fractional(8 * FP_SCALE, &ts);
    assert!(next > 8 * FP_SCALE);
}

#[test]
fn difficulty_falls_when_blocks_are_slow() {
    let mut ts: Vec<u64> = Vec::new();
    for i in 0..61u64 {
        ts.push(1_000_000 + i * 180);
    }
    let next = calculate_next_difficulty_fractional(8 * FP_SCALE, &ts);
    assert!(next < 8 * FP_SCALE);
}

#[test]
fn difficulty_needs_two_timestamps() {
    let ts: Vec<u64> = vec![1_000_000];
    assert_eq!(
        calculate_next_difficulty_fractional(INITIAL_DIFFICULTY_FP, &ts),
        INITIAL_DIFFICULTY_FP
    );
}

#[test]
fn side_chain_difficulty_replays_ancestry() {
    // The expected difficulty computed by replaying the genesis
    // ancestry matches the cached one at the tip.
    let chain = Chain::new(genesis_ts());
    let tip = chain.tip;
    assert_eq!(chain.difficulty_for_block_on_parent(&tip), chain.next_difficulty());
}
