//! The helper components of the memory pool.
pub mod format;
pub mod partition;
pub mod cache_round;
pub mod pending;
pub mod cache;
pub mod codec;
pub mod resolver;
pub mod signed_proposals;
pub mod proposal_cache;
pub mod ready;
pub mod proposal;
pub use crate::text::fmt_id;
