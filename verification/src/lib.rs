//! Accounting core of a multi-contract staking platform: a snapshot-indexed
//! staking ledger with time-locked withdrawal claims, an orchestrator that
//! registers one ledger per token denomination, and a rewards engine that
//! distributes reward tokens across denominations by weight.

pub mod claims;
pub mod denom;
pub mod duration;
pub mod laws;
pub mod orchestrator;
pub mod rewards;
pub mod snapshot;
pub mod snapmap;
pub mod staking;
pub mod types;

pub use snapshot::Changelog;
pub use snapmap::SnapshotMap;
