//! Error kinds of the aggregation core.
//!
//! All per-message failures are recovered locally by the protocol: a bad
//! message is dropped and never aborts an aggregation. Only configuration
//! failures are fatal, and they surface at construction time.

use vstd::prelude::*;

verus! {

/// Fatal configuration failures, detected at construction time.
#[derive(Debug, Clone, Copy, PartialEq, Eq, Structural)]
pub enum ConfigurationError {
    /// The local node's index does not lie inside the committee.
    NodeIdOutOfBounds,
    /// Two successive partitioner ranges are not consecutive.
    NonConsecutiveRanges,
}

/// Failure of the partitioner to produce a peer range for a level.
#[derive(Debug, Clone, Copy, PartialEq, Eq, Structural)]
pub enum PartitioningError {
    /// The level's opposite subtree holds no committee index.
    EmptyLevel { level: usize },
    /// The level index lies beyond the number of levels.
    InvalidLevel { level: usize },
}

/// Failure to merge one contribution into another.
#[derive(Debug, Clone, Copy, PartialEq, Eq, Structural)]
pub enum ContributionError {
    /// The two contributor sets share a member.
    Overlap,
    /// The two contributor sets were made for different committee sizes.
    WidthMismatch,
}

/// Rejection of a contribution handed to the store.
#[derive(Debug, Clone, Copy, PartialEq, Eq, Structural)]
pub enum StoreError {
    /// The level index does not name a receivable level.
    InvalidLevel,
    /// An individual contribution's contributor set is not exactly the
    /// claimed sender, or the sender does not live on the level.
    MalformedIndividual,
    /// The claimed sender is not one of the level's peers.
    UnknownPeer,
    /// The contribution's contributor set leaves the level's admissible set.
    NotAdmissible,
}

/// Synchronisation failures reported by the surrounding consensus client.
#[derive(Debug, Clone, Copy, PartialEq, Eq, Structural)]
pub enum SyncError {
    Other,
    NoValidSyncTarget,
}

} // verus!
