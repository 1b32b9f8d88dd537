//! Plain value types shared by the ledger's components.
use vstd::prelude::*;

verus! {

/// A content-derived proposal identifier: a 32-byte digest.
pub type VoteId = [u8; 32];

/// A content-derived review item identifier: a 32-byte digest.
pub type ItemId = [u8; 32];

/// A point in time, in nanoseconds, as supplied by the host.
pub type Timestamp = u64;

/// A ballot or an opinion: `true` is affirmative, `false` negative.
pub type Choose = bool;

/// Why a ledger operation was rejected. A rejected operation changes nothing.
#[derive(Debug, Clone, Copy, PartialEq, Eq, Structural)]
pub enum ContractError {
    /// The electorate is empty or smaller than the threshold.
    InvalidThreshold,
    /// A member of the electorate is not a well-formed account id.
    InvalidElectorateMember,
    /// A proposal with the same content already exists.
    DuplicateProposal,
    /// A review item with the same content already exists.
    DuplicateItem,
    /// No proposal has the given id.
    ProposalNotFound,
    /// No review item has the given id.
    ItemNotFound,
    /// The caller was never named in any electorate.
    VoterNotFound,
    /// The caller owes no ballot on this proposal: not an elector, or already voted.
    AlreadySettled,
    /// The proposal has been resolved and takes no more ballots.
    ProposalClosed,
}

} // verus!
