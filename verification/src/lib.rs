//! Block-import and fork-choice core of a consensus client.
//!
//! Candidate blocks and attestations are validated cheaply, then exhaustively;
//! accepted blocks feed a weighted fork-choice tree that selects the canonical
//! head. Expensive derived state is cached, and the mutable chain aggregate is
//! guarded by a bounded-wait reader/writer lock.

pub mod primitives;
pub mod state;
pub mod validator_pubkey_cache;
pub mod head_tracker;
pub mod snapshot_cache;
pub mod timeout_rw_lock;
pub mod fork_choice;
pub mod block_verification;
pub mod beacon_chain;

pub use crate::beacon_chain::{BeaconChain, ChainError};
pub use crate::block_verification::{
    AttestationProcessingOutcome, BlockError, BlockProcessingOutcome,
};
pub use crate::fork_choice::ForkChoice;
pub use crate::snapshot_cache::Snapshot;
