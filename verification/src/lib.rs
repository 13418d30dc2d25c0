pub mod cbor;
pub mod crypto;
pub mod decode;
pub mod error;
pub mod miner;
pub mod network;
pub mod node;
pub mod sha256;
pub mod timestamp;
pub mod types;
pub mod util;
pub mod wallet;

pub use error::BtcError;

use vstd::prelude::*;

verus! {

pub const SATOSHIS_PER_BTC: u64 = 100_000_000;

pub const INITIAL_REWARD: u64 = 50;

pub const HALVING_INTERVAL: u64 = 210;

pub const IDEAL_BLOCK_TIME: i64 = 10;

pub const DIFFICULTY_UPDATE_INTERVAL: u64 = 50;

pub const MAX_MEMPOOL_TRANSACTION_AGE: i64 = 600;

pub const BLOCK_TRANSACTION_CAP: usize = 20;

/// The reward of the first blocks, in satoshis.
pub open spec fn spec_initial_reward_sats() -> u64 {
    (INITIAL_REWARD * SATOSHIS_PER_BTC) as u64
}

pub fn initial_reward_sats() -> (r: u64)
    ensures
        r == spec_initial_reward_sats(),
        r == 5_000_000_000,
{
    INITIAL_REWARD * SATOSHIS_PER_BTC
}

/// The easiest target: a hash meets it where its first twelve bits are zero.
pub open spec fn spec_min_target() -> sha256::Hash {
    sha256::Hash(
        [
            0x00, 0x0f, 0xff, 0xff, 0xff, 0xff, 0xff, 0xff, 0xff, 0xff, 0xff, 0xff, 0xff, 0xff,
            0xff, 0xff, 0xff, 0xff, 0xff, 0xff, 0xff, 0xff, 0xff, 0xff, 0xff, 0xff, 0xff, 0xff,
            0xff, 0xff, 0xff, 0xff,
        ],
    )
}

pub fn min_target() -> (r: sha256::Hash)
    ensures
        r == spec_min_target(),
{
    sha256::Hash::from_bytes(
        [
            0x00, 0x0f, 0xff, 0xff, 0xff, 0xff, 0xff, 0xff, 0xff, 0xff, 0xff, 0xff, 0xff, 0xff,
            0xff, 0xff, 0xff, 0xff, 0xff, 0xff, 0xff, 0xff, 0xff, 0xff, 0xff, 0xff, 0xff, 0xff,
            0xff, 0xff, 0xff, 0xff,
        ],
    )
}

} // verus!
