//! The accounts of one owner, one for each asset that the owner holds.

use crate::account::{AccountState, TokenAccount};
use crate::table::{distinct_keys, lookup, put, Replica, Table};
use vstd::prelude::*;

verus! {

/// What a wallet holds: accounts by asset. No entry means the empty account.
pub type WalletState = Seq<(Seq<char>, AccountState)>;

/// The account of `token` in `wallet`.
pub open spec fn account_in(wallet: WalletState, token: Seq<char>) -> AccountState {
    match lookup(wallet, token) {
        Some(account) => account,
        None => AccountState::empty(),
    }
}

/// The balance of `token` in `wallet`.
pub open spec fn balance_in(wallet: WalletState, token: Seq<char>) -> u128 {
    account_in(wallet, token).balance
}

/// The invariant of a wallet.
pub open spec fn wallet_wf(wallet: WalletState) -> bool {
    &&& distinct_keys(wallet)
    &&& forall|i: int| 0 <= i < wallet.len() ==> (#[trigger] wallet[i]).1.wf()
}

/// The accounts of one owner.
pub struct TokenWallet {
    pub accounts: Table<String, TokenAccount>,
}

impl View for TokenWallet {
    type V = WalletState;

    open spec fn view(&self) -> WalletState {
        self.accounts@
    }
}

impl Replica for TokenWallet {
    fn replica(&self) -> (copy: Self) {
        TokenWallet { accounts: self.accounts.replica() }
    }
}

impl TokenWallet {
    /// The invariant that every method keeps.
    pub open spec fn wf(&self) -> bool {
        wallet_wf(self@)
    }

    /// The wallet without accounts.
    pub fn new() -> (wallet: Self)
        ensures
            wallet@ == Seq::<(Seq<char>, AccountState)>::empty(),
            wallet.wf(),
    {
        TokenWallet { accounts: Table::new() }
    }

    /// The balance of each of the given assets, in the order given; 0 for an
    /// asset that the wallet has no account of.
    pub fn get_balances(&self, token_ids: Vec<String>) -> (balances: Vec<(String, u128)>)
        ensures
            balances@.len() == token_ids@.len(),
            forall|i: int|
                0 <= i < token_ids@.len() ==> (#[trigger] balances@[i]).0 == token_ids@[i]
                    && balances@[i].1 == balance_in(self@, token_ids@[i]@),
    {
        let mut array: Vec<(String, u128)> = Vec::new();
        let mut i: usize = 0;
        while i < token_ids.len()
            invariant
                i <= token_ids@.len(),
                array@.len() == i,
                forall|k: int|
                    0 <= k < i ==> (#[trigger] array@[k]).0 == token_ids@[k] && array@[k].1
                        == balance_in(self@, token_ids@[k]@),
            decreases token_ids@.len() - i,
        {
            let balance: u128 = match self.accounts.get(&token_ids[i]) {
                Some(account) => account.balance,
                None => 0,
            };
            array.push((token_ids[i].clone(), balance));
            i = i + 1;
        }
        array
    }

    /// A copy of the account of `token_id`, if the wallet has one.
    pub fn get_account(&self, token_id: &String) -> (account: Option<TokenAccount>)
        ensures
            match account {
                Some(found) => lookup(self@, token_id@) == Some(found@),
                None => lookup(self@, token_id@) is None,
            },
    {
        match self.accounts.get(token_id) {
            Some(account) => Some(account.replica()),
            None => None,
        }
    }

    /// Stores a copy of `account` as the account of `token_id`.
    pub fn set_account(&mut self, token_id: &String, account: &TokenAccount)
        ensures
            final(self)@ == put(old(self)@, token_id@, account@),
    {
        self.accounts.put(token_id.clone(), account.replica());
    }
}

} // verus!
