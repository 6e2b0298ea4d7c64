//! One client's balance state and the arithmetic that mutates it.
//!
//! Monetary quantities are fixed-point integers scaled by 10,000. `total` is
//! signed (a chargeback may drive it negative); `held` is the non-negative
//! amount currently under dispute; the available balance is `total - held`
//! and computing it fails when that difference leaves the signed 64-bit
//! range. Every operation either applies completely and returns the new
//! available balance, or fails with an [`Error`] and leaves the account
//! unchanged.

use crate::amount::{decode_signed, decode_unsigned, spec_render_signed, spec_render_unsigned};
use crate::error::Error;
use vstd::string::StringExecFns;
use vstd::prelude::*;

verus! {

#[derive(Clone, Copy, Debug, PartialEq, Eq, Structural)]
pub struct Account {
    pub id: u16,
    /// Total balance. Negative only when a chargeback has clawed back
    /// funds that were already spent.
    pub total: i64,
    /// Amount currently under dispute; never negative.
    pub held: u64,
    /// Set permanently by a chargeback.
    pub locked: bool,
}

impl Account {
    /// The account a client starts with: zero balances, not locked.
    pub open spec fn spec_new(client_id: u16) -> Account {
        Account { id: client_id, total: 0, held: 0, locked: false }
    }

    /// The available (spendable) balance, `total - held`, as a mathematical
    /// integer.
    pub open spec fn spec_available(self) -> int {
        self.total - self.held
    }

    /// Whether the available balance is representable as an `i64`. Since
    /// `total - held <= total`, only underflow can make it unrepresentable.
    pub open spec fn available_fits(self) -> bool {
        i64::MIN <= self.spec_available()
    }

    /// What [`Account::available`] returns.
    pub open spec fn spec_available_result(self) -> Result<i64, Error> {
        if self.available_fits() {
            Ok(self.spec_available() as i64)
        } else {
            Err(Error::Overflow)
        }
    }

    /// The account after a deposit, paired with the operation's result.
    /// The deposit is rejected, with the account unchanged, if the new total
    /// or the new available balance would leave the `i64` range.
    pub open spec fn spec_deposit(self, amnt: u64) -> (Account, Result<i64, Error>) {
        if self.total + amnt <= i64::MAX && i64::MIN <= self.total + amnt - self.held {
            let t = Account {
                id: self.id,
                total: (self.total + amnt) as i64,
                held: self.held,
                locked: self.locked,
            };
            (t, Ok((self.total + amnt - self.held) as i64))
        } else {
            (self, Err(Error::Overflow))
        }
    }

    /// The account after a withdrawal, paired with the operation's result.
    /// Fails with `Overflow` when the available balance cannot be computed,
    /// and with `InsufficientFunds` exactly when the amount exceeds it;
    /// otherwise `total` decreases by the amount.
    pub open spec fn spec_withdraw(self, amnt: u64) -> (Account, Result<i64, Error>) {
        if !self.available_fits() {
            (self, Err(Error::Overflow))
        } else if self.spec_available() < amnt {
            (self, Err(Error::InsufficientFunds))
        } else {
            let t = Account {
                id: self.id,
                total: (self.total - amnt) as i64,
                held: self.held,
                locked: self.locked,
            };
            (t, Ok((self.spec_available() - amnt) as i64))
        }
    }

    /// The account after a forced (chargeback) withdrawal, paired with the
    /// operation's result. The total may go negative; the operation only
    /// fails when the old or new available balance is unrepresentable.
    pub open spec fn spec_withdraw_unchecked(self, amnt: u64) -> (Account, Result<i64, Error>) {
        if !self.available_fits() || self.spec_available() - amnt < i64::MIN {
            (self, Err(Error::Overflow))
        } else {
            let t = Account {
                id: self.id,
                total: (self.total - amnt) as i64,
                held: self.held,
                locked: self.locked,
            };
            (t, Ok((self.spec_available() - amnt) as i64))
        }
    }

    /// The account after a hold, paired with the operation's result. The
    /// hold is rejected, with the account unchanged, if `held` would
    /// overflow or the new available balance would be unrepresentable.
    pub open spec fn spec_hold(self, amnt: u64) -> (Account, Result<i64, Error>) {
        if self.held + amnt <= u64::MAX && i64::MIN <= self.total - (self.held + amnt) {
            let t = Account {
                id: self.id,
                total: self.total,
                held: (self.held + amnt) as u64,
                locked: self.locked,
            };
            (t, Ok((self.total - self.held - amnt) as i64))
        } else {
            (self, Err(Error::Overflow))
        }
    }

    /// The account after an unhold, paired with the operation's result.
    /// Fails with `InvalidUnhold` exactly when the amount exceeds what is
    /// held, and with `Overflow` when the new available balance would be
    /// unrepresentable (possible only if the old one already was).
    pub open spec fn spec_unhold(self, amnt: u64) -> (Account, Result<i64, Error>) {
        if amnt > self.held {
            (self, Err(Error::InvalidUnhold))
        } else if self.total - (self.held - amnt) < i64::MIN {
            (self, Err(Error::Overflow))
        } else {
            let t = Account {
                id: self.id,
                total: self.total,
                held: (self.held - amnt) as u64,
                locked: self.locked,
            };
            (t, Ok((self.total - (self.held - amnt)) as i64))
        }
    }

    pub fn new(client_id: u16) -> (a: Account)
        ensures
            a == Account::spec_new(client_id),
    {
        Account { id: client_id, total: 0, held: 0, locked: false }
    }

    pub fn with_balance(client_id: u16, seed_balance: i64) -> (a: Account)
        ensures
            a == (Account { id: client_id, total: seed_balance, held: 0, locked: false }),
    {
        Account { id: client_id, total: seed_balance, held: 0, locked: false }
    }

    pub fn id(&self) -> (r: u16)
        ensures
            r == self.id,
    {
        self.id
    }

    pub fn total(&self) -> (r: i64)
        ensures
            r == self.total,
    {
        self.total
    }

    pub fn held(&self) -> (r: u64)
        ensures
            r == self.held,
    {
        self.held
    }

    pub fn is_locked(&self) -> (r: bool)
        ensures
            r == self.locked,
    {
        self.locked
    }

    pub fn available(&self) -> (r: Result<i64, Error>)
        ensures
            r == self.spec_available_result(),
    {
        match self.total.checked_sub_unsigned(self.held) {
            Some(a) => Ok(a),
            None => Err(Error::Overflow),
        }
    }

    pub fn deposit(&mut self, amnt: u64) -> (r: Result<i64, Error>)
        ensures
            (*final(self), r) == old(self).spec_deposit(amnt),
    {
        match self.total.checked_add_unsigned(amnt) {
            Some(new_total) => match new_total.checked_sub_unsigned(self.held) {
                Some(avail) => {
                    self.total = new_total;
                    Ok(avail)
                },
                None => Err(Error::Overflow),
            },
            None => Err(Error::Overflow),
        }
    }

    pub fn withdraw(&mut self, amnt: u64) -> (r: Result<i64, Error>)
        ensures
            (*final(self), r) == old(self).spec_withdraw(amnt),
    {
        let avail = match self.total.checked_sub_unsigned(self.held) {
            Some(a) => a,
            None => {
                return Err(Error::Overflow);
            },
        };
        if avail < 0 || (avail as u64) < amnt {
            return Err(Error::InsufficientFunds);
        }
        let amnt_signed = amnt as i64;
        self.total = self.total - amnt_signed;
        Ok(avail - amnt_signed)
    }

    pub fn withdraw_allow_negative(&mut self, amnt: u64) -> (r: Result<i64, Error>)
        ensures
            (*final(self), r) == old(self).spec_withdraw_unchecked(amnt),
    {
        if self.total.checked_sub_unsigned(self.held).is_none() {
            return Err(Error::Overflow);
        }
        match self.total.checked_sub_unsigned(amnt) {
            Some(new_total) => match new_total.checked_sub_unsigned(self.held) {
                Some(avail) => {
                    self.total = new_total;
                    Ok(avail)
                },
                None => Err(Error::Overflow),
            },
            None => Err(Error::Overflow),
        }
    }

    pub fn hold(&mut self, amnt: u64) -> (r: Result<i64, Error>)
        ensures
            (*final(self), r) == old(self).spec_hold(amnt),
    {
        match self.held.checked_add(amnt) {
            Some(new_held) => match self.total.checked_sub_unsigned(new_held) {
                Some(avail) => {
                    self.held = new_held;
                    Ok(avail)
                },
                None => Err(Error::Overflow),
            },
            None => Err(Error::Overflow),
        }
    }

    pub fn unhold(&mut self, amnt: u64) -> (r: Result<i64, Error>)
        ensures
            (*final(self), r) == old(self).spec_unhold(amnt),
    {
        match self.held.checked_sub(amnt) {
            Some(new_held) => match self.total.checked_sub_unsigned(new_held) {
                Some(avail) => {
                    self.held = new_held;
                    Ok(avail)
                },
                None => Err(Error::Overflow),
            },
            None => Err(Error::InvalidUnhold),
        }
    }

    pub fn lock(&mut self) -> (r: bool)
        ensures
            *final(self) == (Account { locked: true, ..*old(self) }),
            r == true,
    {
        self.locked = true;
        self.locked
    }

    pub fn unlock(&mut self) -> (r: bool)
        ensures
            *final(self) == (Account { locked: false, ..*old(self) }),
            r == false,
    {
        self.locked = false;
        self.locked
    }
}

/// One rendered snapshot row: every monetary field as fixed four-decimal
/// text, ready for emission.
#[derive(Debug)]
pub struct AccountSer {
    pub id: u16,
    pub total: String,
    pub held: String,
    pub available: String,
    pub locked: bool,
}

/// What a snapshot row must say about the account it renders.
pub open spec fn row_matches(row: AccountSer, a: Account) -> bool {
    &&& row.id == a.id
    &&& row.locked == a.locked
    &&& row.total@ == spec_render_signed(a.total as int)
    &&& row.held@ == spec_render_unsigned(a.held as nat)
    &&& row.available@ == (if a.available_fits() {
        spec_render_signed(a.spec_available())
    } else {
        seq!['0']
    })
}

impl Account {
    /// Render this account as a snapshot row. An available balance that
    /// cannot be computed renders as `"0"` rather than failing emission.
    pub fn snapshot(&self) -> (r: AccountSer)
        ensures
            row_matches(r, *self),
    {
        let available = match self.available() {
            Ok(a) => decode_signed(a),
            Err(_) => {
                proof {
                    reveal_strlit("0");
                }
                let z = String::from_str("0");
                proof {
                    assert(z@ =~= seq!['0']);
                }
                z
            },
        };
        AccountSer {
            id: self.id,
            total: decode_signed(self.total),
            held: decode_unsigned(self.held),
            available,
            locked: self.locked,
        }
    }
}

/// The sum of a sequence of deposit amounts.
pub open spec fn amount_sum(amounts: Seq<u64>) -> int
    decreases amounts.len(),
{
    if amounts.len() == 0 {
        0
    } else {
        amount_sum(amounts.drop_last()) + amounts.last()
    }
}

/// The account reached by applying a whole sequence of deposits in order.
pub open spec fn apply_deposits(a: Account, amounts: Seq<u64>) -> Account
    decreases amounts.len(),
{
    if amounts.len() == 0 {
        a
    } else {
        apply_deposits(a, amounts.drop_last()).spec_deposit(amounts.last()).0
    }
}

/// Law: a fresh account that receives any sequence of deposits whose running
/// sum never exceeds `i64::MAX` ends with `total` equal to the sum of the
/// amounts, nothing held, and an available balance equal to `total`.
pub proof fn lemma_deposits_accumulate(client_id: u16, amounts: Seq<u64>)
    requires
        forall|i: int| 0 <= i <= amounts.len() ==> amount_sum(#[trigger] amounts.take(i)) <= i64::MAX,
    ensures
        ({
            let a = apply_deposits(Account::spec_new(client_id), amounts);
            a.total == amount_sum(amounts) && 0 <= a.total && a.held == 0 && a.locked == false
                && a.spec_available() == a.total
        }),
    decreases amounts.len(),
{
    if amounts.len() > 0 {
        let prefix = amounts.drop_last();
        assert forall|i: int| 0 <= i <= prefix.len() implies amount_sum(#[trigger] prefix.take(i))
            <= i64::MAX by {
            assert(prefix.take(i) =~= amounts.take(i));
        }
        lemma_deposits_accumulate(client_id, prefix);
        assert(amounts.take(amounts.len() as int) =~= amounts);
    }
}

/// Law: when the available balance is representable, a withdrawal fails with
/// `InsufficientFunds` exactly when the requested amount exceeds it; and a
/// withdrawal that fails for any reason leaves the account exactly as it was.
pub proof fn lemma_withdraw_insufficient_funds(a: Account, amnt: u64)
    ensures
        a.available_fits() ==> ((a.spec_withdraw(amnt).1 == Err::<i64, Error>(
            Error::InsufficientFunds,
        )) <==> amnt > a.spec_available()),
        a.spec_withdraw(amnt).1 is Err ==> a.spec_withdraw(amnt).0 == a,
{
}

} // verus!
