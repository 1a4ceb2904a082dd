//! Consensus and networking core of a UTXO-based proof-of-work
//! cryptocurrency node: the chain engine with UTXO tracking and
//! reorganization, linear-weighted difficulty retargeting, the
//! memory-hard proof-of-work hash, transaction primitives and
//! identifiers, the fee-ordered mempool, the peer scoreboard, and the
//! pure parts of the peer-to-peer protocol.

pub mod chain;
pub mod crypto;
pub mod difficulty;
pub mod encoding;
pub mod hashes;
pub mod keymap;
pub mod mempool;
pub mod miner;
pub mod net;
pub mod params;
pub mod pow;
pub mod scoreboard;
pub mod script;
pub mod storage;
pub mod types;
pub mod utxo;
pub mod work;
