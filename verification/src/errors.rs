use vstd::prelude::*;

verus! {

/// What can go wrong while building a transaction: two operations on the
/// same path cannot share a batch.
#[derive(Clone, Copy, PartialEq, Eq, Structural, Debug)]
pub enum QueryError {
    KeyCollision,
}

/// What can go wrong during a sync exchange.
#[derive(Clone, Copy, PartialEq, Eq, Structural, Debug)]
pub enum SyncError {
    /// The sender was asked about a label it does not hold.
    MalformedQuestion,
    /// A received node does not hash to the label that asked for it, or a
    /// received leaf lies outside the region that requested it.
    MalformedAnswer,
}

} // verus!
