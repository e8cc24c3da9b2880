//! The account of one owner in one asset: a balance, and what others may
//! draw from it.

use crate::host::{account_hash, principal_hash};
use crate::ledger::LedgerError;
use crate::table::{delete, distinct_keys, lemma_delete, lemma_put, lookup, put, Replica, Table};
use vstd::prelude::*;

verus! {

/// What an account holds. An allowance is filed under the hash of the
/// principal that may draw it; no entry means an allowance of 0.
pub struct AccountState {
    pub balance: u128,
    pub allowances: Seq<(Seq<u8>, u128)>,
}

impl AccountState {
    /// The account that holds nothing.
    pub open spec fn empty() -> AccountState {
        AccountState { balance: 0, allowances: Seq::empty() }
    }

    /// The invariant of an account.
    pub open spec fn wf(self) -> bool {
        distinct_keys(self.allowances)
    }

    /// What the principal filed under `escrow` may draw.
    pub open spec fn allowance(self, escrow: Seq<u8>) -> u128 {
        match lookup(self.allowances, escrow) {
            Some(amount) => amount,
            None => 0,
        }
    }

    /// The account with the allowance of `escrow` set to `amount`; an
    /// allowance of 0 takes the entry out.
    pub open spec fn with_allowance(self, escrow: Seq<u8>, amount: u128) -> AccountState {
        AccountState {
            allowances: if amount > 0 {
                put(self.allowances, escrow, amount)
            } else {
                delete(self.allowances, escrow)
            },
            ..self
        }
    }

    /// The account with another balance.
    pub open spec fn with_balance(self, balance: u128) -> AccountState {
        AccountState { balance, ..self }
    }
}

/// Setting an allowance changes that allowance and nothing else.
pub proof fn lemma_with_allowance(account: AccountState, escrow: Seq<u8>, amount: u128, other: Seq<u8>)
    requires
        account.wf(),
    ensures
        account.with_allowance(escrow, amount).wf(),
        account.with_allowance(escrow, amount).balance == account.balance,
        account.with_allowance(escrow, amount).allowance(other) == if other == escrow {
            amount
        } else {
            account.allowance(other)
        },
{
    lemma_put(account.allowances, escrow, amount, other);
    lemma_delete(account.allowances, escrow, other);
}

/// Balance and allowances of one owner in one asset.
pub struct TokenAccount {
    pub balance: u128,
    pub allowances: Table<Vec<u8>, u128>,
}

impl View for TokenAccount {
    type V = AccountState;

    open spec fn view(&self) -> AccountState {
        AccountState { balance: self.balance, allowances: self.allowances@ }
    }
}

impl Replica for TokenAccount {
    fn replica(&self) -> (copy: Self) {
        TokenAccount { balance: self.balance, allowances: self.allowances.replica() }
    }
}

impl TokenAccount {
    /// The invariant that every method keeps.
    pub open spec fn wf(&self) -> bool {
        self@.wf()
    }

    /// The account with no balance and no allowances.
    pub fn new() -> (account: Self)
        ensures
            account@ == AccountState::empty(),
            account.wf(),
    {
        TokenAccount { balance: 0, allowances: Table::new() }
    }

    /// Lets `escrow_account_id` draw up to `allowance` from this account. An
    /// allowance of 0 takes the entry out. Without a host to hash the
    /// identifier nothing changes.
    pub fn set_allowance(&mut self, escrow_account_id: &String, allowance: u128) -> (result: Result<
        (),
        LedgerError,
    >)
        ensures
            match result {
                Ok(()) => final(self)@ == old(self)@.with_allowance(
                    principal_hash(escrow_account_id@),
                    allowance,
                ),
                Err(reason) => reason == LedgerError::NoHost && final(self)@ == old(self)@,
            },
            old(self).wf() ==> final(self).wf(),
    {
        match account_hash(escrow_account_id) {
            Some(escrow_hash) => {
                self.set_allowance_for(escrow_hash, allowance);
                Ok(())
            },
            None => Err(LedgerError::NoHost),
        }
    }

    /// Lets the principal that is filed under `escrow_hash` draw up to
    /// `allowance` from this account. An allowance of 0 takes the entry out.
    pub fn set_allowance_for(&mut self, escrow_hash: Vec<u8>, allowance: u128)
        ensures
            final(self)@ == old(self)@.with_allowance(escrow_hash@, allowance),
            old(self).wf() ==> final(self).wf(),
    {
        if allowance > 0 {
            self.allowances.put(escrow_hash, allowance);
        } else {
            self.allowances.delete(&escrow_hash);
        }
    }

    /// What `escrow_account_id` may draw from this account.
    pub fn get_allowance(&self, escrow_account_id: &String) -> (allowance: Result<
        u128,
        LedgerError,
    >)
        ensures
            match allowance {
                Ok(amount) => amount == self@.allowance(principal_hash(escrow_account_id@)),
                Err(reason) => reason == LedgerError::NoHost,
            },
    {
        match account_hash(escrow_account_id) {
            Some(escrow_hash) => Ok(self.allowance_for(&escrow_hash)),
            None => Err(LedgerError::NoHost),
        }
    }

    /// What the principal that is filed under `escrow_hash` may draw from
    /// this account.
    pub fn allowance_for(&self, escrow_hash: &Vec<u8>) -> (allowance: u128)
        ensures
            allowance == self@.allowance(escrow_hash@),
    {
        match self.allowances.get(escrow_hash) {
            Some(amount) => *amount,
            None => 0,
        }
    }
}

} // verus!
