use vstd::prelude::*;

verus! {

/// Every way an operation on either ledger can fail.
///
/// All of these abort the whole triggering unit of work: an operation that
/// returns an error leaves the ledger state exactly as it found it.
#[derive(Debug, Clone)]
pub enum ContractError {
    /// A node id was dereferenced that is not in the queue; in correct
    /// operation this indicates linkage corruption and is fatal.
    NotFound,
    /// The caller is not allowed to perform the operation.
    Unauthorized,
    /// A required payment in the configured denomination was absent.
    EmptyBalance { denom: String },
    /// Two delegations carry different denominations.
    DifferentBondDenom { denom1: String, denom2: String },
    /// The caller has no settled value waiting to be withdrawn.
    NothingToClaim,
    /// The caller has no active position in the queue.
    NothingToRemove,
    /// An order's required value exceeds what the queue can supply.
    InsufficientLiquidity,
    /// A checked addition or multiplication would exceed the representable
    /// range.
    ArithmeticOverflow,
    /// A checked subtraction would go below zero.
    ArithmeticUnderflow,
}

} // verus!
