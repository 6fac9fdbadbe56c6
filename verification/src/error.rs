//! Error codes of the engine, a shared numeric space partitioned by phase.
//!
//! Every error aborts the current operation: the operations of this library
//! guarantee in their contracts that on an `Err` result the state is exactly
//! what it was before the call (no partial commit).

use vstd::prelude::*;

verus! {

/// Errors of the bootstrap (join) phase.
#[derive(PartialEq, Eq, Structural, Clone, Copy, Debug)]
pub enum CreateError {
    /// The caller already appears among the founders.
    AlreadyJoined,
}

/// Errors of the planning phase.
#[derive(PartialEq, Eq, Structural, Clone, Copy, Debug)]
pub enum PlanError {
    /// The caller is not one of the founders.
    NotOriginal,
    /// A plan ballot already exists.
    AlreadyHaveProposal,
    /// No plan ballot exists to vote on.
    NoProposal,
}

/// Gating error: the operation is not permitted in the current status.
#[derive(PartialEq, Eq, Structural, Clone, Copy, Debug)]
pub enum Error {
    UnOpenEntry,
}

/// Errors of the online phase.
///
/// `SupplyExhausted` is the fail-closed outcome of a mint that asks for more
/// than the remaining supply; `InvalidProposal` is also returned when a
/// settlement must execute a proposal whose text does not parse (the whole
/// call aborts with no state change).
#[derive(PartialEq, Eq, Structural, Clone, Copy, Debug)]
pub enum OnlineError {
    InsufficientBalance,
    HaveUnfinishedProposal,
    InvalidProposal,
    NoPermission,
    NoZero,
    TooSmall,
    AmountTooBig,
    SupplyExhausted,
}

/// Any error an operation of the engine can abort with, tagged by the
/// phase-specific space it belongs to.
#[derive(PartialEq, Eq, Structural, Clone, Copy, Debug)]
pub enum DaoError {
    Entry(Error),
    Create(CreateError),
    Plan(PlanError),
    Online(OnlineError),
}

impl CreateError {
    /// The numeric code surfaced to the caller.
    pub fn code(&self) -> (c: u16)
        ensures
            c == 0,
    {
        match self {
            CreateError::AlreadyJoined => 0,
        }
    }
}

impl PlanError {
    /// The numeric code surfaced to the caller.
    pub fn code(&self) -> (c: u16)
        ensures
            c == match self {
                PlanError::NotOriginal => 0u16,
                PlanError::AlreadyHaveProposal => 1u16,
                PlanError::NoProposal => 2u16,
            },
    {
        match self {
            PlanError::NotOriginal => 0,
            PlanError::AlreadyHaveProposal => 1,
            PlanError::NoProposal => 2,
        }
    }
}

impl Error {
    /// The numeric code surfaced to the caller.
    pub fn code(&self) -> (c: u16)
        ensures
            c == 0,
    {
        match self {
            Error::UnOpenEntry => 0,
        }
    }
}

impl OnlineError {
    /// The numeric code surfaced to the caller.
    pub fn code(&self) -> (c: u16)
        ensures
            c == match self {
                OnlineError::InsufficientBalance => 0u16,
                OnlineError::HaveUnfinishedProposal => 1u16,
                OnlineError::InvalidProposal => 2u16,
                OnlineError::NoPermission => 3u16,
                OnlineError::NoZero => 4u16,
                OnlineError::TooSmall => 5u16,
                OnlineError::AmountTooBig => 6u16,
                OnlineError::SupplyExhausted => 7u16,
            },
    {
        match self {
            OnlineError::InsufficientBalance => 0,
            OnlineError::HaveUnfinishedProposal => 1,
            OnlineError::InvalidProposal => 2,
            OnlineError::NoPermission => 3,
            OnlineError::NoZero => 4,
            OnlineError::TooSmall => 5,
            OnlineError::AmountTooBig => 6,
            OnlineError::SupplyExhausted => 7,
        }
    }
}

} // verus!
