//! The structured transaction records the engine consumes.

use vstd::prelude::*;

verus! {

/// What a record asks the engine to do.
#[derive(Clone, Copy, Debug, PartialEq, Eq, Structural)]
pub enum TransactionType {
    Deposit,
    Withdrawal,
    Dispute,
    Resolve,
    Chargeback,
}

/// One structured input record.
#[derive(Clone, Copy, Debug, PartialEq, Eq, Structural)]
pub struct Transaction {
    pub tx_type: TransactionType,
    /// The client whose account the record addresses.
    pub client: u16,
    /// The transaction id: the record's own for deposits and withdrawals,
    /// the disputed deposit's for dispute, resolve and chargeback.
    pub tx: u32,
    /// Fixed-point amount in units of 1/10,000; zero for dispute, resolve
    /// and chargeback records.
    pub amount: u64,
}

} // verus!
