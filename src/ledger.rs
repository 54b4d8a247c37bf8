//! Account balances and the moves between them.
use vstd::prelude::*;

use crate::error::Error;
use crate::table::Table;
use crate::types::{AccountId, Balance};

verus! {

pub open spec fn balance_value() -> spec_fn(Balance) -> int {
    |b: Balance| b as int
}

/// The free balance of each account; an account never credited holds zero.
pub struct Ledger {
    accounts: Table<Balance>,
}

impl Ledger {
    pub closed spec fn wf(&self) -> bool {
        self.accounts.wf()
    }

    pub closed spec fn balance_of(&self, a: AccountId) -> int {
        if self.accounts@.contains_key(a) {
            self.accounts@[a] as int
        } else {
            0
        }
    }

    /// The sum of all balances.
    pub closed spec fn total(&self) -> int {
        self.accounts.total(balance_value())
    }

    pub proof fn lemma_bounds(&self, a: AccountId, b: AccountId)
        requires
            self.wf(),
        ensures
            0 <= self.balance_of(a) <= self.total(),
            a != b ==> self.balance_of(a) + self.balance_of(b) <= self.total(),
    {
        self.accounts.lemma_total_nonneg(balance_value());
        if self.accounts@.contains_key(a) {
            if self.accounts@.contains_key(b) {
                self.accounts.lemma_total_bounds(a, b, balance_value());
            } else {
                self.accounts.lemma_total_bounds(a, a, balance_value());
            }
        } else if self.accounts@.contains_key(b) {
            self.accounts.lemma_total_bounds(b, b, balance_value());
        }
    }

    pub proof fn lemma_total_nonneg(&self)
        ensures
            self.total() >= 0,
    {
        self.accounts.lemma_total_nonneg(balance_value());
    }

    pub fn new() -> (r: Self)
        ensures
            r.wf(),
            r.total() == 0,
            forall|a: AccountId| #[trigger] r.balance_of(a) == 0,
    {
        let accounts = Table::new();
        Ledger { accounts }
    }

    pub fn balance(&self, a: AccountId) -> (r: Balance)
        requires
            self.wf(),
        ensures
            r == self.balance_of(a),
    {
        match self.accounts.get(a) {
            Some(b) => *b,
            None => 0,
        }
    }

    /// Credits `amount` to `a`.
    pub fn deposit(&mut self, a: AccountId, amount: Balance)
        requires
            old(self).wf(),
            old(self).total() + amount <= u128::MAX,
        ensures
            final(self).wf(),
            final(self).balance_of(a) == old(self).balance_of(a) + amount,
            forall|b: AccountId| b != a ==> #[trigger] final(self).balance_of(b) == old(self).balance_of(b),
            final(self).total() == old(self).total() + amount,
    {
        proof {
            self.lemma_bounds(a, a);
        }
        let b = self.balance(a);
        self.accounts.insert(a, b + amount);
    }

    /// Debits `amount` from `a`, which must hold it.
    pub fn withdraw(&mut self, a: AccountId, amount: Balance) -> (r: Result<(), Error>)
        requires
            old(self).wf(),
        ensures
            final(self).wf(),
            r.is_err() == (old(self).balance_of(a) < amount),
            r.is_err() ==> r == Err::<(), Error>(Error::FreeAmountNotEnough) && *final(self) == *old(self),
            r.is_ok() ==> final(self).balance_of(a) == old(self).balance_of(a) - amount,
            r.is_ok() ==> final(self).total() == old(self).total() - amount,
            forall|b: AccountId| b != a ==> #[trigger] final(self).balance_of(b) == old(self).balance_of(b),
    {
        let b = self.balance(a);
        if b < amount {
            return Err(Error::FreeAmountNotEnough);
        }
        self.accounts.insert(a, b - amount);
        Ok(())
    }

    /// Moves `amount` from `from` to `to`; `from` must hold it.
    pub fn transfer(&mut self, from: AccountId, to: AccountId, amount: Balance) -> (r: Result<
        (),
        Error,
    >)
        requires
            old(self).wf(),
            old(self).total() <= u128::MAX,
        ensures
            final(self).wf(),
            r.is_err() == (old(self).balance_of(from) < amount),
            r.is_err() ==> r == Err::<(), Error>(Error::FreeAmountNotEnough) && *final(self) == *old(self),
            r.is_ok() && from != to ==> final(self).balance_of(from) == old(self).balance_of(from) - amount,
            r.is_ok() && from != to ==> final(self).balance_of(to) == old(self).balance_of(to) + amount,
            r.is_ok() ==> final(self).total() == old(self).total(),
            forall|b: AccountId|
                b != from && b != to ==> #[trigger] final(self).balance_of(b) == old(self).balance_of(b),
            r.is_ok() && from == to ==> forall|b: AccountId| #[trigger] final(self).balance_of(b) == old(self).balance_of(b),
    {
        let r = self.withdraw(from, amount);
        if r.is_err() {
            return r;
        }
        self.deposit(to, amount);
        Ok(())
    }
}

} // verus!
