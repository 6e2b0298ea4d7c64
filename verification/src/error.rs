//! The error kinds that the engine can report.

use vstd::prelude::*;

verus! {

/// Every failure of an account operation, of the record-level state machine,
/// or of the amount codec carries one of these kinds.
#[derive(Clone, Copy, Debug, PartialEq, Eq, Structural)]
pub enum Error {
    /// An arithmetic step would leave the representable range.
    Overflow,
    /// A withdrawal asked for more than the available balance.
    InsufficientFunds,
    /// An unhold asked for more than is currently held.
    InvalidUnhold,
    /// A dispute, resolve or chargeback named an unknown transaction id.
    NotFound,
    /// A dispute, resolve or chargeback named a client other than the one
    /// that made the referenced deposit.
    ClientMismatch,
    /// A dispute named a transaction that is already under dispute.
    AlreadyDisputed,
    /// A resolve or chargeback named a transaction that is not under dispute.
    NotDisputed,
    /// A textual amount was not a non-negative decimal with at most four
    /// fractional digits, or did not fit in the fixed-point range.
    InvalidAmount,
}

} // verus!
