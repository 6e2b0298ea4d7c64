//! The keyed collection of accounts, behind a capability interface.
//!
//! [`ActStore`] names every way the engine may touch account state; the
//! in-memory [`MemActStore`] is its one implementation here. All the
//! balance-changing operations create the addressed account lazily, so even
//! an operation that then fails leaves the fresh account behind, exactly as
//! a successful one would.

use crate::account::{row_matches, Account, AccountSer};
use crate::error::Error;
use std::collections::HashMap;
use vstd::prelude::*;
use vstd::std_specs::iter::IteratorSpec;

verus! {

broadcast use vstd::std_specs::hash::group_hash_axioms;

/// The account a store operation works on: the stored one, or a fresh
/// account for the client when none is stored yet.
pub open spec fn stored_or_new(m: Map<u16, Account>, client: u16) -> Account {
    if m.contains_key(client) {
        m[client]
    } else {
        Account::spec_new(client)
    }
}

/// Capability interface over account state. Every mutation of any account
/// goes through one of these named actions.
pub trait ActStore: Sized {
    /// The accounts the store holds, keyed by client id.
    spec fn accts(&self) -> Map<u16, Account>;

    /// A read-only view of one account, if the client has one; the account
    /// handed back carries the client's own id.
    fn get_account(&self, client: u16) -> (r: Option<&Account>)
        ensures
            match r {
                Some(a) => self.accts().contains_key(client) && *a == self.accts()[client]
                    && a.id == client,
                None => !self.accts().contains_key(client),
            },
    ;

    fn deposit(&mut self, client: u16, amnt: u64) -> (r: Result<i64, Error>)
        ensures
            ({
                let s = stored_or_new(old(self).accts(), client).spec_deposit(amnt);
                final(self).accts() == old(self).accts().insert(client, s.0) && r == s.1
            }),
    ;

    fn withdraw(&mut self, client: u16, amnt: u64) -> (r: Result<i64, Error>)
        ensures
            ({
                let s = stored_or_new(old(self).accts(), client).spec_withdraw(amnt);
                final(self).accts() == old(self).accts().insert(client, s.0) && r == s.1
            }),
    ;

    /// The chargeback debit: like every other balance action it creates the
    /// account lazily, so it never fails for want of an account or of funds,
    /// only on arithmetic overflow (a fresh account ends at `-amnt`).
    fn withdraw_unchecked(&mut self, client: u16, amnt: u64) -> (r: Result<i64, Error>)
        ensures
            ({
                let s = stored_or_new(old(self).accts(), client).spec_withdraw_unchecked(amnt);
                final(self).accts() == old(self).accts().insert(client, s.0) && r == s.1
            }),
    ;

    fn hold(&mut self, client: u16, amnt: u64) -> (r: Result<i64, Error>)
        ensures
            ({
                let s = stored_or_new(old(self).accts(), client).spec_hold(amnt);
                final(self).accts() == old(self).accts().insert(client, s.0) && r == s.1
            }),
    ;

    fn unhold(&mut self, client: u16, amnt: u64) -> (r: Result<i64, Error>)
        ensures
            ({
                let s = stored_or_new(old(self).accts(), client).spec_unhold(amnt);
                final(self).accts() == old(self).accts().insert(client, s.0) && r == s.1
            }),
    ;

    /// Lock the client's account and report the new lock state; `false`
    /// when the client has no account (no lazy creation here).
    fn lock_account(&mut self, client: u16) -> (r: bool)
        ensures
            ({
                if old(self).accts().contains_key(client) {
                    let a = old(self).accts()[client];
                    final(self).accts() == old(self).accts().insert(
                        client,
                        (Account { locked: true, ..a }),
                    ) && r == true
                } else {
                    final(self).accts() == old(self).accts() && r == false
                }
            }),
    ;

    /// Unlock the client's account; the result is the new lock state when
    /// the account exists and `false` otherwise, hence always `false`.
    fn unlock_account(&mut self, client: u16) -> (r: bool)
        ensures
            ({
                if old(self).accts().contains_key(client) {
                    let a = old(self).accts()[client];
                    final(self).accts() == old(self).accts().insert(
                        client,
                        (Account { locked: false, ..a }),
                    ) && r == false
                } else {
                    final(self).accts() == old(self).accts() && r == false
                }
            }),
    ;
}

/// The in-memory account store.
pub struct MemActStore {
    accounts: HashMap<u16, Account>,
}

/// A balance-changing action on one account, for the shared dispatch in
/// [`MemActStore::action_act`].
enum Action {
    Withdraw(u64),
    WithdrawUnchecked(u64),
    Deposit(u64),
    Hold(u64),
    Unhold(u64),
}

/// What an [`Action`] does to an account.
spec fn action_result(a: Account, action: Action) -> (Account, Result<i64, Error>) {
    match action {
        Action::Withdraw(amnt) => a.spec_withdraw(amnt),
        Action::WithdrawUnchecked(amnt) => a.spec_withdraw_unchecked(amnt),
        Action::Deposit(amnt) => a.spec_deposit(amnt),
        Action::Hold(amnt) => a.spec_hold(amnt),
        Action::Unhold(amnt) => a.spec_unhold(amnt),
    }
}

impl MemActStore {
    /// Every stored account carries the client id it is keyed under.
    #[verifier::type_invariant]
    spec fn ids_match_keys(self) -> bool {
        forall|c: u16| self.accounts@.contains_key(c) ==> (#[trigger] self.accounts@[c]).id == c
    }

    pub fn new() -> (s: Self)
        ensures
            s.accts() == Map::<u16, Account>::empty(),
    {
        MemActStore { accounts: HashMap::new() }
    }

    /// Apply one balance action to the client's account, creating the
    /// account first when absent.
    fn action_act(&mut self, client: u16, action: Action) -> (r: Result<i64, Error>)
        ensures
            ({
                let s = action_result(stored_or_new(old(self).accts(), client), action);
                final(self).accts() == old(self).accts().insert(client, s.0) && r == s.1
            }),
    {
        proof {
            use_type_invariant(&*self);
        }
        let mut m: HashMap<u16, Account> = HashMap::new();
        std::mem::swap(&mut m, &mut self.accounts);
        let mut act = match m.get(&client) {
            Some(a) => *a,
            None => Account::new(client),
        };
        let r = match action {
            Action::Withdraw(amnt) => act.withdraw(amnt),
            Action::WithdrawUnchecked(amnt) => act.withdraw_allow_negative(amnt),
            Action::Deposit(amnt) => act.deposit(amnt),
            Action::Hold(amnt) => act.hold(amnt),
            Action::Unhold(amnt) => act.unhold(amnt),
        };
        m.insert(client, act);
        self.accounts = m;
        r
    }
}

/// Whether a rendered row belongs to some account of the store.
pub open spec fn row_has_source(row: AccountSer, m: Map<u16, Account>) -> bool {
    exists|c: u16| #[trigger] m.contains_key(c) && row_matches(row, m[c])
}

impl MemActStore {
    /// One rendered snapshot row per account, in unspecified order: every
    /// row renders a stored account, and every stored account is rendered.
    pub fn rows(&self) -> (r: Vec<AccountSer>)
        ensures
            r@.len() == self.accts().dom().len(),
            forall|k: int| 0 <= k < r@.len() ==> row_has_source(#[trigger] r@[k], self.accts()),
            forall|c: u16| #[trigger] self.accts().contains_key(c) ==> exists|k: int|
                0 <= k < r@.len() && row_matches(#[trigger] r@[k], self.accts()[c]),
    {
        let ghost v = vstd::std_specs::hash::spec_hash_map_iter(&self.accounts).remaining();
        let mut out: Vec<AccountSer> = Vec::new();
        for pair in it: self.accounts.iter()
            invariant
                out@.len() == it.index(),
                it.seq() == v,
                forall|k: int| 0 <= k < out@.len() ==> row_matches(#[trigger] out@[k], *v[k].1),
        {
            out.push(pair.1.snapshot());
        }
        proof {
            assert(v.len() == self.accounts@.dom().len());
            assert(out@.len() == v.len());
            assert forall|k: int| 0 <= k < out@.len() implies row_has_source(
                #[trigger] out@[k],
                self.accts(),
            ) by {
                let key = *v[k].0;
                assert(self.accounts@.contains_key(key));
                assert(row_matches(out@[k], self.accounts@[key]));
            }
            assert forall|c: u16| #[trigger] self.accts().contains_key(c) implies exists|k: int|
                0 <= k < out@.len() && row_matches(#[trigger] out@[k], self.accts()[c]) by {
                assert(v.contains((&c, &self.accounts@[c])));
                let k = choose|k: int| 0 <= k < v.len() && v[k] == (&c, &self.accounts@[c]);
                assert(row_matches(out@[k], self.accts()[c]));
            }
        }
        out
    }
}

impl Default for MemActStore {
    fn default() -> (s: Self)
        ensures
            s.accts() == Map::<u16, Account>::empty(),
    {
        Self::new()
    }
}

impl ActStore for MemActStore {
    closed spec fn accts(&self) -> Map<u16, Account> {
        self.accounts@
    }

    fn get_account(&self, client: u16) -> (r: Option<&Account>) {
        proof {
            use_type_invariant(&*self);
        }
        self.accounts.get(&client)
    }

    fn deposit(&mut self, client: u16, amnt: u64) -> (r: Result<i64, Error>) {
        self.action_act(client, Action::Deposit(amnt))
    }

    fn withdraw(&mut self, client: u16, amnt: u64) -> (r: Result<i64, Error>) {
        self.action_act(client, Action::Withdraw(amnt))
    }

    fn withdraw_unchecked(&mut self, client: u16, amnt: u64) -> (r: Result<i64, Error>) {
        self.action_act(client, Action::WithdrawUnchecked(amnt))
    }

    fn hold(&mut self, client: u16, amnt: u64) -> (r: Result<i64, Error>) {
        self.action_act(client, Action::Hold(amnt))
    }

    fn unhold(&mut self, client: u16, amnt: u64) -> (r: Result<i64, Error>) {
        self.action_act(client, Action::Unhold(amnt))
    }

    fn lock_account(&mut self, client: u16) -> (r: bool) {
        proof {
            use_type_invariant(&*self);
        }
        let mut m: HashMap<u16, Account> = HashMap::new();
        std::mem::swap(&mut m, &mut self.accounts);
        let r = match m.get(&client) {
            Some(a) => {
                let mut act = *a;
                let r = act.lock();
                m.insert(client, act);
                r
            },
            None => false,
        };
        self.accounts = m;
        r
    }

    fn unlock_account(&mut self, client: u16) -> (r: bool) {
        proof {
            use_type_invariant(&*self);
        }
        let mut m: HashMap<u16, Account> = HashMap::new();
        std::mem::swap(&mut m, &mut self.accounts);
        let r = match m.get(&client) {
            Some(a) => {
                let mut act = *a;
                let r = act.unlock();
                m.insert(client, act);
                r
            },
            None => false,
        };
        self.accounts = m;
        r
    }
}

} // verus!
