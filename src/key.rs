//! Names of the ledger's storage areas, for a host that persists the ledger
//! one collection at a time.
use vstd::prelude::*;

use crate::types::ItemId;

verus! {

/// The ledger's top-level tables.
#[derive(Debug, Clone, Copy, PartialEq, Eq, Structural)]
pub enum ContractKeys {
    /// Proposals by id.
    ContractVote,
    /// Participants' indexes by account.
    ContractVoter,
    /// Review items by id.
    Review,
}

/// The two lists of one participant's index, by account.
#[derive(Debug, Clone, PartialEq, Eq)]
pub enum VoteKeys {
    VoterFinish(String),
    VoterThinking(String),
}

/// The approve and reject sets of one review item, by item id.
#[derive(Debug, Clone, Copy, PartialEq, Eq)]
pub enum ItemKeys {
    Active(ItemId),
    Negative(ItemId),
}

} // verus!
