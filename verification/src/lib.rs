//! A delegated proof-of-stake bonding engine.
//!
//! The library tracks which accounts are registered as block-producer
//! candidates ("collators"), which accounts back them with bonded funds
//! ("nominators"), and how reserved balances move as participants join,
//! leave, or adjust their stake.  Every public operation validates its
//! preconditions against the current state, applies its changes atomically
//! (a failed call leaves the state exactly as it was), and keeps the
//! currency bookkeeping consistent with the registry: the verified
//! invariant says that each account's reserved balance equals its
//! self-bond plus the sum of its nominations.

pub mod bonds;
pub mod candidates;
pub mod exits;
pub mod laws;
pub mod nominations;
pub mod state;
pub mod types;

pub use bonds::Bond;
pub use state::Staking;
pub use types::{AccountBalance, Candidate, CollatorState, CollatorStatus, Nominator, StakingError};
