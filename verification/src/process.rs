//! The per-record state machine.
//!
//! [`process`] applies one transaction record to the account store and the
//! dispute history. Its whole effect is pinned down by [`spec_process`],
//! which mirrors the transition table: deposits and withdrawals move money
//! (only successful deposits are recorded for later dispute); dispute,
//! resolve and chargeback validate the referenced deposit record and then
//! hold, release or claw back its amount. A chargeback locks the account
//! before unwinding, so a partial failure still leaves it frozen.

use crate::account::Account;
use crate::error::Error;
use crate::stores::{stored_or_new, ActStore};
use crate::transaction::{Transaction, TransactionType};
use std::collections::HashMap;
use vstd::prelude::*;

verus! {

broadcast use vstd::std_specs::hash::group_hash_axioms;

/// A deposit kept in the dispute history, with its dispute flag.
#[derive(Clone, Copy, Debug)]
pub struct InternalTransaction {
    pub tx: Transaction,
    pub disputed: bool,
}

/// The whole effect of one record on the accounts, the dispute history and
/// the reported result.
pub open spec fn spec_process(
    t: Transaction,
    accts: Map<u16, Account>,
    txs: Map<u32, InternalTransaction>,
) -> (Map<u16, Account>, Map<u32, InternalTransaction>, Result<i64, Error>) {
    match t.tx_type {
        TransactionType::Deposit => {
            let s = stored_or_new(accts, t.client).spec_deposit(t.amount);
            let txs1 = if s.1 is Ok {
                txs.insert(t.tx, InternalTransaction { tx: t, disputed: false })
            } else {
                txs
            };
            (accts.insert(t.client, s.0), txs1, s.1)
        },
        TransactionType::Withdrawal => {
            let s = stored_or_new(accts, t.client).spec_withdraw(t.amount);
            (accts.insert(t.client, s.0), txs, s.1)
        },
        TransactionType::Dispute => {
            if !txs.contains_key(t.tx) {
                (accts, txs, Err(Error::NotFound))
            } else {
                let e = txs[t.tx];
                if t.client != e.tx.client {
                    (accts, txs, Err(Error::ClientMismatch))
                } else if e.disputed {
                    (accts, txs, Err(Error::AlreadyDisputed))
                } else {
                    // the entry is marked disputed only once the hold has
                    // succeeded: a rejected record leaves the history as it was
                    let s = stored_or_new(accts, t.client).spec_hold(e.tx.amount);
                    let txs1 = if s.1 is Ok {
                        txs.insert(t.tx, InternalTransaction { tx: e.tx, disputed: true })
                    } else {
                        txs
                    };
                    (accts.insert(t.client, s.0), txs1, s.1)
                }
            }
        },
        TransactionType::Resolve => {
            if !txs.contains_key(t.tx) {
                (accts, txs, Err(Error::NotFound))
            } else {
                let e = txs[t.tx];
                if t.client != e.tx.client {
                    (accts, txs, Err(Error::ClientMismatch))
                } else if !e.disputed {
                    (accts, txs, Err(Error::NotDisputed))
                } else {
                    // likewise, the flag is cleared only once the unhold has
                    // succeeded
                    let s = stored_or_new(accts, t.client).spec_unhold(e.tx.amount);
                    let txs1 = if s.1 is Ok {
                        txs.insert(t.tx, InternalTransaction { tx: e.tx, disputed: false })
                    } else {
                        txs
                    };
                    (accts.insert(t.client, s.0), txs1, s.1)
                }
            }
        },
        TransactionType::Chargeback => {
            if !txs.contains_key(t.tx) {
                (accts, txs, Err(Error::NotFound))
            } else {
                let e = txs[t.tx];
                if t.client != e.tx.client {
                    (accts, txs, Err(Error::ClientMismatch))
                } else if !e.disputed {
                    (accts, txs, Err(Error::NotDisputed))
                } else {
                    // lock first, so that a failing unwind still leaves the
                    // account frozen; the dispute flag itself is never cleared
                    let accts1 = if accts.contains_key(t.client) {
                        accts.insert(t.client, (Account { locked: true, ..accts[t.client] }))
                    } else {
                        accts
                    };
                    let s1 = stored_or_new(accts1, t.client).spec_unhold(e.tx.amount);
                    let accts2 = accts1.insert(t.client, s1.0);
                    if s1.1 is Err {
                        (accts2, txs, s1.1)
                    } else {
                        let s2 = s1.0.spec_withdraw_unchecked(e.tx.amount);
                        (accts2.insert(t.client, s2.0), txs, s2.1)
                    }
                }
            }
        },
    }
}

/// Apply one record to the stores; the new state and the result are exactly
/// those of [`spec_process`].
pub fn process<S: ActStore>(
    t: Transaction,
    act_store: &mut S,
    tx_store: &mut HashMap<u32, InternalTransaction>,
) -> (r: Result<i64, Error>)
    ensures
        ({
            let s = spec_process(t, old(act_store).accts(), old(tx_store)@);
            final(act_store).accts() == s.0 && final(tx_store)@ == s.1 && r == s.2
        }),
{
    match t.tx_type {
        TransactionType::Deposit => {
            let r = act_store.deposit(t.client, t.amount);
            if r.is_ok() {
                tx_store.insert(t.tx, InternalTransaction { tx: t, disputed: false });
            }
            r
        },
        TransactionType::Withdrawal => act_store.withdraw(t.client, t.amount),
        TransactionType::Dispute => match tx_store.get(&t.tx) {
            None => Err(Error::NotFound),
            Some(e) => {
                let e = *e;
                if t.client != e.tx.client {
                    Err(Error::ClientMismatch)
                } else if e.disputed {
                    Err(Error::AlreadyDisputed)
                } else {
                    let r = act_store.hold(t.client, e.tx.amount);
                    if r.is_ok() {
                        tx_store.insert(t.tx, InternalTransaction { tx: e.tx, disputed: true });
                    }
                    r
                }
            },
        },
        TransactionType::Resolve => match tx_store.get(&t.tx) {
            None => Err(Error::NotFound),
            Some(e) => {
                let e = *e;
                if t.client != e.tx.client {
                    Err(Error::ClientMismatch)
                } else if !e.disputed {
                    Err(Error::NotDisputed)
                } else {
                    let r = act_store.unhold(t.client, e.tx.amount);
                    if r.is_ok() {
                        tx_store.insert(t.tx, InternalTransaction { tx: e.tx, disputed: false });
                    }
                    r
                }
            },
        },
        TransactionType::Chargeback => match tx_store.get(&t.tx) {
            None => Err(Error::NotFound),
            Some(e) => {
                let e = *e;
                if t.client != e.tx.client {
                    Err(Error::ClientMismatch)
                } else if !e.disputed {
                    Err(Error::NotDisputed)
                } else {
                    let _locked = act_store.lock_account(t.client);
                    match act_store.unhold(t.client, e.tx.amount) {
                        Ok(_) => act_store.withdraw_unchecked(t.client, e.tx.amount),
                        Err(err) => Err(err),
                    }
                }
            },
        },
    }
}

/// Law: a dispute whose hold succeeds, followed by a resolve of the same
/// transaction, both succeed and return the client's account exactly to its
/// pre-dispute state — `held`, `available` and everything else — and leave
/// the dispute history as it began.
pub proof fn lemma_dispute_then_resolve_restores(
    accts: Map<u16, Account>,
    txs: Map<u32, InternalTransaction>,
    client: u16,
    tx: u32,
)
    requires
        txs.contains_key(tx),
        txs[tx].tx.client == client,
        !txs[tx].disputed,
        stored_or_new(accts, client).spec_hold(txs[tx].tx.amount).1 is Ok,
    ensures
        ({
            let d = Transaction { tx_type: TransactionType::Dispute, client: client, tx: tx, amount: 0 };
            let r = Transaction { tx_type: TransactionType::Resolve, client: client, tx: tx, amount: 0 };
            let a0 = stored_or_new(accts, client);
            let s1 = spec_process(d, accts, txs);
            let s2 = spec_process(r, s1.0, s1.1);
            s1.2 is Ok && s2.2 is Ok && s2.0 == accts.insert(client, a0) && s2.0[client] == a0
                && s2.1 == txs
        }),
{
    let a0 = stored_or_new(accts, client);
    let amt = txs[tx].tx.amount;
    let d = Transaction { tx_type: TransactionType::Dispute, client: client, tx: tx, amount: 0 };
    let r = Transaction { tx_type: TransactionType::Resolve, client: client, tx: tx, amount: 0 };
    let s1 = spec_process(d, accts, txs);
    let held = a0.spec_hold(amt).0;
    assert(s1.0[client] == held);
    let s2 = spec_process(r, s1.0, s1.1);
    assert(held.spec_unhold(amt).0 == a0);
    assert(s2.0 =~= accts.insert(client, a0));
    assert(s2.1 =~= txs);
}

/// Law: a dispute whose hold succeeds, followed by a chargeback of the same
/// transaction, both succeed; afterwards `held` is back at its pre-dispute
/// value, `total` has decreased by the disputed amount (possibly below
/// zero), and the account is locked.
pub proof fn lemma_dispute_then_chargeback(
    accts: Map<u16, Account>,
    txs: Map<u32, InternalTransaction>,
    client: u16,
    tx: u32,
)
    requires
        txs.contains_key(tx),
        txs[tx].tx.client == client,
        !txs[tx].disputed,
        stored_or_new(accts, client).spec_hold(txs[tx].tx.amount).1 is Ok,
    ensures
        ({
            let d = Transaction { tx_type: TransactionType::Dispute, client: client, tx: tx, amount: 0 };
            let c = Transaction {
                tx_type: TransactionType::Chargeback,
                client: client,
                tx: tx,
                amount: 0,
            };
            let a0 = stored_or_new(accts, client);
            let amt = txs[tx].tx.amount;
            let s1 = spec_process(d, accts, txs);
            let s2 = spec_process(c, s1.0, s1.1);
            s1.2 is Ok && s2.2 is Ok && s2.0.contains_key(client) && s2.0[client].held == a0.held
                && s2.0[client].total == a0.total - amt && s2.0[client].locked == true && s2.1
                == s1.1
        }),
{
}

/// Law: once an account is locked, no later record unlocks it — every step
/// of the state machine keeps the account present and locked.
pub proof fn lemma_lock_is_permanent(
    t: Transaction,
    accts: Map<u16, Account>,
    txs: Map<u32, InternalTransaction>,
    client: u16,
)
    requires
        accts.contains_key(client),
        accts[client].locked,
    ensures
        ({
            let s = spec_process(t, accts, txs);
            s.0.contains_key(client) && s.0[client].locked
        }),
{
}

/// Law: a dispute that succeeds makes a second dispute of the same
/// transaction fail with `AlreadyDisputed`, changing nothing.
pub proof fn lemma_second_dispute_rejected(
    accts: Map<u16, Account>,
    txs: Map<u32, InternalTransaction>,
    client: u16,
    tx: u32,
)
    requires
        txs.contains_key(tx),
        txs[tx].tx.client == client,
        !txs[tx].disputed,
        stored_or_new(accts, client).spec_hold(txs[tx].tx.amount).1 is Ok,
    ensures
        ({
            let d = Transaction { tx_type: TransactionType::Dispute, client: client, tx: tx, amount: 0 };
            let s1 = spec_process(d, accts, txs);
            let s2 = spec_process(d, s1.0, s1.1);
            s2.2 == Err::<i64, Error>(Error::AlreadyDisputed) && s2.0 == s1.0 && s2.1 == s1.1
        }),
{
}

/// Law: a record the processor rejects leaves the dispute history exactly
/// as it was; and unless it was a chargeback — whose deliberate policy is
/// to lock first and unwind after — every account that existed keeps its
/// whole state, the addressed account at most being freshly created with
/// zero balances.
pub proof fn lemma_failed_record_changes_nothing(
    t: Transaction,
    accts: Map<u16, Account>,
    txs: Map<u32, InternalTransaction>,
)
    requires
        spec_process(t, accts, txs).2 is Err,
    ensures
        spec_process(t, accts, txs).1 == txs,
        t.tx_type != TransactionType::Chargeback ==> forall|c: u16|
            accts.contains_key(c) ==> spec_process(t, accts, txs).0.contains_key(c)
                && spec_process(t, accts, txs).0[c] == #[trigger] accts[c],
{
}

/// Law: a withdrawal is never recorded for later dispute — processing one
/// leaves the dispute history unchanged — so a dispute that names a
/// transaction id with no recorded deposit fails with `NotFound` and
/// changes nothing.
pub proof fn lemma_dispute_of_withdrawal_not_found(
    accts: Map<u16, Account>,
    txs: Map<u32, InternalTransaction>,
    w: Transaction,
    client: u16,
)
    requires
        w.tx_type == TransactionType::Withdrawal,
        !txs.contains_key(w.tx),
    ensures
        ({
            let d = Transaction {
                tx_type: TransactionType::Dispute,
                client: client,
                tx: w.tx,
                amount: 0,
            };
            let s1 = spec_process(w, accts, txs);
            let s2 = spec_process(d, s1.0, s1.1);
            s1.1 == txs && s2.2 == Err::<i64, Error>(Error::NotFound) && s2.0 == s1.0 && s2.1
                == txs
        }),
{
}

} // verus!
