//! Plain data carried by the staking engine: statuses, errors, balances,
//! and the per-account records of the candidate registry and the
//! nomination ledger.

use vstd::prelude::*;
use crate::bonds::Bond;

verus! {

/// Lifecycle of a registered candidate.
///
/// `Leaving` carries the round at which the exit delay elapses and an
/// external sweep may remove the candidate; until then its funds stay
/// reserved.  The only transitions are `Active <-> Offline` and either of
/// those to `Leaving`; nothing leaves `Leaving` from inside the engine.
#[derive(Clone, Copy, PartialEq, Eq, Structural, Debug)]
pub enum CollatorStatus {
    Active,
    Offline,
    Leaving(u64),
}

/// A caller-visible failure.  Every operation returns synchronously with
/// one of these, leaving the state exactly as it was before the call.
#[derive(Clone, Copy, PartialEq, Eq, Structural, Debug)]
pub enum StakingError {
    AlreadyCandidate,
    NotCandidate,
    AlreadyLeaving,
    AlreadyOffline,
    AlreadyActive,
    BondBelowMinimum,
    InsufficientFunds,
    CandidateDNE,
    AlreadyNominated,
    NotNominator,
    NominationDNE,
}

/// The currency ledger's record for one account.  An absent record reads
/// as zero on both sides.
#[derive(Clone, Copy, PartialEq, Eq, Structural, Debug)]
pub struct AccountBalance {
    pub free: u64,
    pub reserved: u64,
}

/// A registered candidate: its self-bond, the bonds of its backers, the
/// cached sum of those bonds, and its lifecycle status.
pub struct Candidate {
    pub bond: u64,
    pub nominators: Vec<Bond>,
    pub total_nominated: u64,
    pub status: CollatorStatus,
}

/// A nominator: the collators it backs with the amount bonded to each,
/// and the cached sum of those amounts.
pub struct Nominator {
    pub nominations: Vec<Bond>,
    pub total: u64,
}

/// A read-only snapshot of one candidate, handed out to callers.
#[derive(Clone, Copy, PartialEq, Eq, Structural, Debug)]
pub struct CollatorState {
    pub bond: u64,
    pub total_nominated: u64,
    pub status: CollatorStatus,
}

impl CollatorState {
    /// The candidate takes part in block-producer selection.
    pub fn is_active(&self) -> (r: bool)
        ensures
            r == (self.status == CollatorStatus::Active),
    {
        match self.status {
            CollatorStatus::Active => true,
            _ => false,
        }
    }

    /// The candidate has requested to exit and waits for the sweep.
    pub fn is_leaving(&self) -> (r: bool)
        ensures
            r == (self.status is Leaving),
    {
        match self.status {
            CollatorStatus::Leaving(_) => true,
            _ => false,
        }
    }
}

} // verus!
