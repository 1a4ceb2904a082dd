use equiforge::params::{
    block_reward, community_fund_amount, miner_reward, init_network, COIN, HALVING_INTERVAL,
};
use equiforge::hashes::{Hash256, leading_zero_bits, null_hash};
use equiforge::types::{Transaction, txid_v1, wtxid_v1, tx_signing_hash_v1, TxOutput};
use equiforge::chain::community_fund_hash;

fn hash_from(bytes: &[u8]) -> Hash256 {
    Hash256::from_bytes(bytes)
}

#[test]
fn test_initial_reward() {
    assert_eq!(block_reward(0), 50 * COIN);
}

#[test]
fn test_first_halving() {
    assert_eq!(block_reward(HALVING_INTERVAL), 25 * COIN);
}

#[test]
fn test_second_halving() {
    assert_eq!(block_reward(HALVING_INTERVAL * 2), 12 * COIN + COIN / 2);
}

#[test]
fn test_eventual_zero_reward() {
    assert_eq!(block_reward(HALVING_INTERVAL * 64), 0);
}

#[test]
fn test_total_supply_approximation() {
    let mut total: u64 = 0;
    let mut height: u64 = 0;
    loop {
        let reward = block_reward(height);
        if reward == 0 {
            break;
        }
        let epoch_end = ((height / HALVING_INTERVAL) + 1) * HALVING_INTERVAL;
        let blocks_remaining = epoch_end - height;
        total = total.saturating_add(reward.saturating_mul(blocks_remaining));
        height = epoch_end;
    }
    let total_coins = total / COIN;
    assert!(total_coins <= 42_000_000);
    assert!(total_coins > 41_900_000);
    println!("Total supply: {} EQF", total_coins);
}

#[test]
fn test_community_fund() {
    let reward = block_reward(0);
    let fund = community_fund_amount(reward);
    let miner = miner_reward(0);
    assert_eq!(fund, 2 * COIN + COIN / 2);
    assert_eq!(miner, 47 * COIN + COIN / 2);
    assert_eq!(fund + miner, reward);
}

#[test]
fn test_coinbase_transaction() {
    let miner_hash = hash_from(&[1u8; 32]);
    let fund_hash = hash_from(&[2u8; 32]);
    let tx = Transaction::new_coinbase(0, 50 * COIN, miner_hash, fund_hash);
    assert!(tx.is_coinbase());
    assert_eq!(tx.outputs.len(), 2);
    assert_eq!(tx.total_output(), 50 * COIN);
}

#[test]
fn test_tx_hash_deterministic() {
    let miner_hash = hash_from(&[1u8; 32]);
    let fund_hash = hash_from(&[2u8; 32]);
    let tx = Transaction::new_coinbase(0, 5_000_000_000, miner_hash, fund_hash);
    assert_eq!(tx.hash(), tx.hash());
    assert_ne!(tx.hash(), null_hash());
}

#[test]
fn test_leading_zero_bits() {
    let mut a = vec![0x00u8, 0x00, 0xFF];
    a.extend_from_slice(&[0u8; 29]);
    assert_eq!(leading_zero_bits(&hash_from(&a)), 16);
    let mut b = vec![0x00u8, 0x0F];
    b.extend_from_slice(&[0u8; 30]);
    assert_eq!(leading_zero_bits(&hash_from(&b)), 12);
    let mut c = vec![0x00u8, 0x00, 0x00, 0x01];
    c.extend_from_slice(&[0u8; 28]);
    assert_eq!(leading_zero_bits(&hash_from(&c)), 31);
    assert_eq!(leading_zero_bits(&hash_from(&[0xFFu8; 32])), 0);
    assert_eq!(leading_zero_bits(&hash_from(&[0u8; 32])), 256);
}

#[test]
fn txid_ignores_unlocking_data() {
    let miner_hash = hash_from(&[9u8; 32]);
    let fund_hash = community_fund_hash();
    let mut a = Transaction::new_coinbase(3, COIN, miner_hash, fund_hash);
    let mut b = Transaction::new_coinbase(3, COIN, miner_hash, fund_hash);
    // Rewriting the unlocking data leaves the txid alone but moves the
    // witness txid.
    b.inputs[0].signature = vec![0xAB; 16];
    assert_eq!(txid_v1(&a), txid_v1(&b));
    assert_ne!(wtxid_v1(&a), wtxid_v1(&b));
    // The txid binds the outputs.
    a.outputs[0].amount += 1;
    assert_ne!(txid_v1(&a), txid_v1(&b));
}

#[test]
fn signing_hash_binds_spent_output() {
    let miner_hash = hash_from(&[9u8; 32]);
    let tx = Transaction::new_coinbase(1, COIN, miner_hash, community_fund_hash());
    let out_a = TxOutput { amount: 5, pubkey_hash: hash_from(&[3u8; 32]) };
    let out_b = TxOutput { amount: 6, pubkey_hash: hash_from(&[3u8; 32]) };
    let ha = tx_signing_hash_v1(&tx, 0, &out_a);
    let ha2 = tx_signing_hash_v1(&tx, 0, &out_a);
    let hb = tx_signing_hash_v1(&tx, 0, &out_b);
    assert_eq!(ha, ha2);
    assert_ne!(ha, hb);
}

#[test]
fn network_config_values() {
    let mainnet = init_network(false);
    let testnet = init_network(true);
    assert!(!mainnet.is_testnet());
    assert!(testnet.is_testnet());
    assert_eq!(mainnet.magic_bytes(), [0xEF, 0x01, 0xF0, 0x42]);
    assert_eq!(testnet.magic_bytes(), [0xEF, 0x01, 0xF0, 0x99]);
    assert_eq!(mainnet.default_port(), 9333);
    assert_eq!(testnet.default_port(), 19333);
    assert_eq!(mainnet.genesis_timestamp() + 1, testnet.genesis_timestamp());
}
