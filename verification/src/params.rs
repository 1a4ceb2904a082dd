//! Consensus-critical chain parameters and the per-network configuration.

use vstd::prelude::*;

verus! {

/// Base unit denomination: base units per coin.
pub const COIN: u64 = 100_000_000;

/// Maximum total supply in base units.
pub const MAX_SUPPLY: u64 = 42_000_000 * COIN;

/// Initial block reward: 50 coins.
pub const INITIAL_BLOCK_REWARD: u64 = 50 * COIN;

/// Halving interval in blocks, sized so that the total minted supply
/// converges to the maximum supply.
pub const HALVING_INTERVAL: u64 = 420_000;

/// Target block time in seconds.
pub const TARGET_BLOCK_TIME: u64 = 90;

/// Maximum encoded block size in bytes.
pub const MAX_BLOCK_SIZE: usize = 4 * 1024 * 1024;

/// Maximum transactions per block.
pub const MAX_TXS_PER_BLOCK: usize = 10_000;

/// Initial difficulty: leading zero bits required in the block hash.
pub const INITIAL_DIFFICULTY: u32 = 8;

/// Protocol version.
pub const PROTOCOL_VERSION: u32 = 4;

/// Minimum protocol version accepted during the handshake.
pub const MIN_PROTOCOL_VERSION: u32 = 4;

/// Community fund percentage of each block reward.
pub const COMMUNITY_FUND_PERCENT: u64 = 5;

/// Minimum transaction fee in base units.
pub const MIN_TX_FEE: u64 = 1000;

/// Blocks before a coinbase output can be spent.
pub const COINBASE_MATURITY: u64 = 100;

/// Seconds between peer-address exchange requests.
pub const PEER_EXCHANGE_INTERVAL: u64 = 120;

/// Maximum outbound peer connections to maintain.
pub const MAX_OUTBOUND_PEERS: usize = 12;

/// Maximum total peer connections.
pub const MAX_PEERS: usize = 256;

/// Reward in base units at a given height, per the halving schedule.
pub open spec fn spec_block_reward(height: u64) -> u64 {
    if height / HALVING_INTERVAL >= 64 {
        0u64
    } else {
        INITIAL_BLOCK_REWARD >> (height / HALVING_INTERVAL)
    }
}

/// Calculate the block reward at a given height.
pub fn block_reward(height: u64) -> (r: u64)
    ensures
        r == spec_block_reward(height),
{
    let halvings: u64 = height / HALVING_INTERVAL;
    if halvings >= 64 {
        return 0;
    }
    INITIAL_BLOCK_REWARD >> halvings
}

/// The community fund's share of a block reward.
pub open spec fn spec_community_fund_amount(reward: u64) -> u64 {
    (reward * COMMUNITY_FUND_PERCENT / 100) as u64
}

/// Calculate the community fund amount for a given block reward.
pub fn community_fund_amount(reward: u64) -> (r: u64)
    ensures
        r == spec_community_fund_amount(reward),
        r <= reward,
{
    let wide: u128 = (reward as u128) * (COMMUNITY_FUND_PERCENT as u128) / 100;
    proof {
        assert(reward * COMMUNITY_FUND_PERCENT / 100 <= reward) by (nonlinear_arith)
            requires COMMUNITY_FUND_PERCENT == 5;
    }
    wide as u64
}

/// Calculate the miner's reward: block reward minus the community fund share.
pub fn miner_reward(height: u64) -> (r: u64)
    ensures
        r == spec_block_reward(height) - spec_community_fund_amount(spec_block_reward(height)),
{
    let reward = block_reward(height);
    let fund = community_fund_amount(reward);
    reward - fund
}

/// Per-network configuration, chosen once at startup and threaded through
/// construction rather than held in mutable global state.
#[derive(Debug, Clone)]
pub struct NetworkConfig {
    pub name: String,
    pub magic: [u8; 4],
    pub default_port: u16,
    pub default_rpc_port: u16,
    pub genesis_timestamp: u64,
    pub data_dir: String,
    pub seed_nodes: Vec<String>,
}

impl NetworkConfig {
    pub open spec fn is_testnet_spec(self) -> bool {
        self.name@ == "testnet"@
    }

    pub fn magic_bytes(&self) -> (m: [u8; 4])
        ensures
            m == self.magic,
    {
        self.magic
    }

    pub fn genesis_timestamp(&self) -> (t: u64)
        ensures
            t == self.genesis_timestamp,
    {
        self.genesis_timestamp
    }

    pub fn default_port(&self) -> (p: u16)
        ensures
            p == self.default_port,
    {
        self.default_port
    }

    pub fn seed_nodes(&self) -> (s: &Vec<String>)
        ensures
            s == &self.seed_nodes,
    {
        &self.seed_nodes
    }

    pub fn data_dir(&self) -> (d: &String)
        ensures
            d == &self.data_dir,
    {
        &self.data_dir
    }

    pub fn is_testnet(&self) -> (b: bool)
        ensures
            b == self.is_testnet_spec(),
    {
        let testnet: String = new_strlit_testnet();
        self.name == testnet
    }
}

fn new_strlit_testnet() -> (s: String)
    ensures
        s@ == "testnet"@,
{
    let s: &str = "testnet";
    s.to_owned()
}

/// Build the configuration for the chosen network. The two networks differ
/// in magic bytes, ports, genesis timestamp and data directory.
pub fn init_network(testnet: bool) -> (c: NetworkConfig)
    ensures
        c.is_testnet_spec() == testnet,
        c.genesis_timestamp == if testnet { 1735689601u64 } else { 1735689600u64 },
        c.magic@ == (if testnet {
            seq![0xEFu8, 0x01u8, 0xF0u8, 0x99u8]
        } else {
            seq![0xEFu8, 0x01u8, 0xF0u8, 0x42u8]
        }),
        c.default_port == (if testnet { 19333u16 } else { 9333u16 }),
{
    if testnet {
        let name: &str = "testnet";
        let dir: &str = "equiforge_testnet";
        let seed: &str = "129.80.239.237:19333";
        let mut seeds: Vec<String> = Vec::new();
        seeds.push(seed.to_owned());
        let c = NetworkConfig {
            name: name.to_owned(),
            magic: [0xEF, 0x01, 0xF0, 0x99],
            default_port: 19333,
            default_rpc_port: 19332,
            genesis_timestamp: 1735689601,
            data_dir: dir.to_owned(),
            seed_nodes: seeds,
        };
        proof {
            reveal_strlit("testnet");
            assert(c.magic@ =~= seq![0xEFu8, 0x01u8, 0xF0u8, 0x99u8]);
        }
        c
    } else {
        let name: &str = "mainnet";
        let dir: &str = "equiforge_data";
        let seed: &str = "129.80.239.237:9333";
        let mut seeds: Vec<String> = Vec::new();
        seeds.push(seed.to_owned());
        let c = NetworkConfig {
            name: name.to_owned(),
            magic: [0xEF, 0x01, 0xF0, 0x42],
            default_port: 9333,
            default_rpc_port: 9332,
            genesis_timestamp: 1735689600,
            data_dir: dir.to_owned(),
            seed_nodes: seeds,
        };
        proof {
            reveal_strlit("mainnet");
            reveal_strlit("testnet");
            assert("mainnet"@[0] != "testnet"@[0]);
            assert(c.name@ != "testnet"@);
            assert(c.magic@ =~= seq![0xEFu8, 0x01u8, 0xF0u8, 0x42u8]);
        }
        c
    }
}

} // verus!
