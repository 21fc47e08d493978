//! The memory pool and BFT consensus logic of a snarkOS validator node, modelled over plain values.
use vstd::prelude::*;

pub mod assoc;
pub mod types;
pub mod text;
pub mod collections;
pub mod committee;
pub mod dag;
pub mod clock;
pub mod helpers;
pub mod cdn;
pub mod bft;
pub mod ordering;
pub mod storage_service;
pub mod primary;
pub mod worker;
pub mod gateway;
pub mod sync;
pub mod config;

verus! {

/// The context prefix of the memory pool's log lines.
pub const CONTEXT: &'static str = "[MemoryPool]";

/// The port on which the memory pool listens for incoming connections.
pub const MEMORY_POOL_PORT: u16 = 5000;

/// The maximum number of milliseconds to wait before proposing a batch.
pub const MAX_BATCH_DELAY_IN_MS: u64 = 2500;

/// The minimum number of seconds to wait before proposing a batch.
pub const MIN_BATCH_DELAY_IN_SECS: u64 = 1;

/// The maximum number of milliseconds to wait before timing out on a fetch.
pub const MAX_FETCH_TIMEOUT_IN_MS: u64 = 3 * MAX_BATCH_DELAY_IN_MS;

/// The maximum number of seconds allowed for the leader to send their certificate.
pub const MAX_LEADER_CERTIFICATE_DELAY_IN_SECS: i64 = 5;

/// The maximum number of seconds before the timestamp is considered expired.
pub const MAX_TIMESTAMP_DELTA_IN_SECS: i64 = 10;

/// The maximum number of workers that can be spawned.
pub const MAX_WORKERS: u8 = 1;

/// The frequency at which each primary broadcasts a ping to every other node.
pub const PRIMARY_PING_IN_MS: u64 = 2 * MAX_BATCH_DELAY_IN_MS;

/// The frequency at which each worker broadcasts a ping to every other node.
pub const WORKER_PING_IN_MS: u64 = 4 * MAX_BATCH_DELAY_IN_MS;

} // verus!
