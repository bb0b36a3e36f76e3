//! The errors the library reports, grouped by who can act on them.

use vstd::prelude::*;

verus! {

/// Errors raised while a configuration is authored. The caller recovers by
/// choosing another configuration.
#[derive(Clone, Copy, Debug, PartialEq, Eq, Structural)]
pub enum ConfigError {
    /// The protocol version already has a configuration.
    DuplicateVersion,
    /// No configuration is registered at or below the protocol version.
    NoConfigBelow,
    /// The boundary is already one, or lies in no shard's interior.
    InvalidBoundary,
    /// The change of layout is not the split of one shard, or no version
    /// or shard numbers are left for it.
    UnsupportedSplit,
}

/// Inconsistencies of the node store. They halt chain processing for the
/// shard concerned.
#[derive(Clone, Copy, Debug, PartialEq, Eq, Structural)]
pub enum StoreError {
    /// Neither the shard nor any of its ancestors holds the node.
    NodeNotFound,
    /// The key already holds other bytes than the ones offered.
    ContentMismatch,
    /// The node already has as many owners as can be counted.
    RefcountOverflow,
}

/// Disagreements between the coordinator and the layout about topology.
#[derive(Clone, Copy, Debug, PartialEq, Eq, Structural)]
pub enum ActivationError {
    /// No split of the shard asked about is known: the layout was not
    /// derived by splitting it, or the shards named are not its children.
    NotDerived,
    /// The split was activated before, in another epoch or for another
    /// parent.
    DoubleActivation,
}

} // verus!
