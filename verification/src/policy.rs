//! Routing policy: every semantic choice a router makes, as plain data.

use vstd::prelude::*;

verus! {

/// Where a value found in a lower tier is copied after a read.
#[derive(Debug, Clone, Copy, PartialEq, Eq, Structural)]
pub enum Promote {
    /// Values stay where they are.
    Never,
    /// The topmost tier gets a copy.
    TopOnly,
    /// Every tier above the one that answered gets a copy.
    AllAbove,
}

/// What a read does when a tier fails to answer.
#[derive(Debug, Clone, Copy, PartialEq, Eq, Structural)]
pub enum OnReadError {
    /// Go on with the next tier down; absence is then unconfirmed.
    FallThrough,
    /// Stop at the failing tier.
    FailFast,
}

/// Which tiers a write reaches.
#[derive(Debug, Clone, Copy, PartialEq, Eq, Structural)]
pub enum WriteMode {
    /// Every writable tier, bottom-up.
    WriteThrough,
    /// The bottommost writable tier; copies above it are deleted.
    WriteAround,
}

/// What a write-through does when a tier rejects the write.
#[derive(Debug, Clone, Copy, PartialEq, Eq, Structural)]
pub enum OnWriteError {
    /// Stop at the failing tier and report it.
    Abort,
    /// Skip the failing tier: for a cache, a failed fill is a capacity loss.
    /// What no tier takes is returned as displaced.
    BestEffort,
}

/// The read half of a [`Policy`].
#[derive(Debug, Clone, Copy, PartialEq, Eq, Structural)]
pub struct ReadPolicy {
    /// Promotion after a hit below the top.
    pub promote: Promote,
    /// Reaction to a failing tier.
    pub on_error: OnReadError,
}

/// Everything a router needs to know beyond its tiers.
#[derive(Debug, Clone, Copy, PartialEq, Eq, Structural)]
pub struct Policy {
    /// Read path.
    pub read: ReadPolicy,
    /// Write propagation.
    pub write: WriteMode,
    /// Reaction to a tier that rejects a write-through.
    pub on_write_error: OnWriteError,
    /// Whether entries displaced from a tier roll over into the tiers below.
    pub demote_displaced: bool,
}

impl Default for ReadPolicy {
    /// A plain fallback chain: nothing is promoted, failing tiers are passed.
    fn default() -> (policy: Self)
        ensures
            policy.promote == Promote::Never,
            policy.on_error == OnReadError::FallThrough,
    {
        ReadPolicy { promote: Promote::Never, on_error: OnReadError::FallThrough }
    }
}

impl Default for Policy {
    /// The neutral fallback chain: the router moves nothing on its own.
    fn default() -> (policy: Self)
        ensures
            policy.read.promote == Promote::Never,
            policy.read.on_error == OnReadError::FallThrough,
            policy.write == WriteMode::WriteThrough,
            policy.on_write_error == OnWriteError::Abort,
            !policy.demote_displaced,
    {
        Policy {
            read: ReadPolicy::default(),
            write: WriteMode::WriteThrough,
            on_write_error: OnWriteError::Abort,
            demote_displaced: false,
        }
    }
}

} // verus!
