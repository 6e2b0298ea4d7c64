//! A small transaction-processing engine: fixed-point monetary amounts,
//! per-client accounts with dispute holds, a keyed account store, and the
//! state machine that applies deposit / withdrawal / dispute / resolve /
//! chargeback records to them.

pub mod account;
pub mod amount;
pub mod error;
pub mod parse;
pub mod process;
pub mod stores;
pub mod transaction;
