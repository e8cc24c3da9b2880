//! The ledger of the exchange as a value: wallets by owner, and the rules of
//! a transfer.
//!
//! A wallet is filed under the key of its owner, and so is an allowance
//! under the key of the principal that may draw it. An owner without a
//! wallet, or a wallet without an account of some asset, holds nothing of
//! it.

use crate::account::{lemma_with_allowance, AccountState};
use crate::domain::PRICE_SCALE;
use crate::table::{distinct_keys, lemma_position, lemma_put, lookup, position, put};
use crate::wallet::{account_in, balance_in, wallet_wf, WalletState};
use vstd::prelude::*;

verus! {

/// What the ledger holds: wallets by the key of their owner.
pub type LedgerState = Seq<(Seq<u8>, WalletState)>;

/// Why the exchange refused to act. Each of these ends the call that ran
/// into it.
#[derive(Debug, Copy, Clone, PartialEq, Eq, Structural)]
pub enum LedgerError {
    /// A transfer of nothing.
    ZeroTransfer,
    /// The owner holds less than the amount.
    NotEnoughBalance,
    /// The caller may draw less than the amount from the owner.
    NotEnoughAllowance,
    /// A principal tried to set an allowance for itself.
    SelfAllowance,
    /// The recipient would hold more than 128 bits can count.
    BalanceOverflow,
    /// Price times quantity is more than 128 bits can count.
    AmountOverflow,
    /// No book trades the asset.
    UnknownToken,
    /// The side is neither `Ask` nor `Bid`.
    BadSide,
    /// The caller is not the owner of the exchange.
    NotOwner,
    /// The account has a stake already.
    AlreadyStaked,
    /// The account has no stake.
    NothingStaked,
    /// An asset of that id is registered already.
    TokenExists,
    /// No request has that number.
    NoSuchRequest,
    /// The time to vote on the request is over.
    VotingEnded,
    /// The account has voted on the request already.
    AlreadyVoted,
    /// The time to vote on the request is not over yet.
    VotingNotOver,
    /// No host is installed to hash an account identifier.
    NoHost,
}

impl LedgerError {
    /// The reason in words.
    pub open spec fn text(self) -> Seq<char> {
        match self {
            LedgerError::ZeroTransfer => "Can't transfer 0 tokens"@,
            LedgerError::NotEnoughBalance => "Not enough balance"@,
            LedgerError::NotEnoughAllowance => "Not enough allowance"@,
            LedgerError::SelfAllowance => "Can't set allowance for yourself"@,
            LedgerError::BalanceOverflow => "Balance overflow"@,
            LedgerError::AmountOverflow => "Amount overflow"@,
            LedgerError::UnknownToken => "OrderBook not init!"@,
            LedgerError::BadSide => "Side not parsed!"@,
            LedgerError::NotOwner => "Only contract owner can sign transactions for this method."@,
            LedgerError::AlreadyStaked => "You have staked tokens. First do the unstaking"@,
            LedgerError::NothingStaked => "You did't have staked tokens. First do the staking"@,
            LedgerError::TokenExists => "A token with this ID already exists"@,
            LedgerError::NoSuchRequest => "There is no request with this id"@,
            LedgerError::VotingEnded => "The voting has already ended"@,
            LedgerError::AlreadyVoted => "You have already voted for this request"@,
            LedgerError::VotingNotOver => "The voting is not over yet"@,
            LedgerError::NoHost => "Blockchain interface not set."@,
        }
    }

    /// The reason in words.
    pub fn message(&self) -> (reason: String)
        ensures
            reason@ == self.text(),
    {
        match self {
            LedgerError::ZeroTransfer => "Can't transfer 0 tokens".to_string(),
            LedgerError::NotEnoughBalance => "Not enough balance".to_string(),
            LedgerError::NotEnoughAllowance => "Not enough allowance".to_string(),
            LedgerError::SelfAllowance => "Can't set allowance for yourself".to_string(),
            LedgerError::BalanceOverflow => "Balance overflow".to_string(),
            LedgerError::AmountOverflow => "Amount overflow".to_string(),
            LedgerError::UnknownToken => "OrderBook not init!".to_string(),
            LedgerError::BadSide => "Side not parsed!".to_string(),
            LedgerError::NotOwner => "Only contract owner can sign transactions for this method.".to_string(),
            LedgerError::AlreadyStaked => "You have staked tokens. First do the unstaking".to_string(),
            LedgerError::NothingStaked => "You did't have staked tokens. First do the staking".to_string(),
            LedgerError::TokenExists => "A token with this ID already exists".to_string(),
            LedgerError::NoSuchRequest => "There is no request with this id".to_string(),
            LedgerError::VotingEnded => "The voting has already ended".to_string(),
            LedgerError::AlreadyVoted => "You have already voted for this request".to_string(),
            LedgerError::VotingNotOver => "The voting is not over yet".to_string(),
            LedgerError::NoHost => "Blockchain interface not set.".to_string(),
        }
    }
}

/// The invariant of a ledger.
pub open spec fn ledger_wf(ledger: LedgerState) -> bool {
    &&& distinct_keys(ledger)
    &&& forall|i: int| 0 <= i < ledger.len() ==> wallet_wf((#[trigger] ledger[i]).1)
}

/// The wallet filed under `owner`.
pub open spec fn wallet_of(ledger: LedgerState, owner: Seq<u8>) -> WalletState {
    match lookup(ledger, owner) {
        Some(wallet) => wallet,
        None => Seq::empty(),
    }
}

/// The account of `token` in the wallet filed under `owner`.
pub open spec fn account_of(ledger: LedgerState, owner: Seq<u8>, token: Seq<char>) -> AccountState {
    account_in(wallet_of(ledger, owner), token)
}

/// What the wallet filed under `owner` holds of `token`.
pub open spec fn balance_of(ledger: LedgerState, owner: Seq<u8>, token: Seq<char>) -> u128 {
    account_of(ledger, owner, token).balance
}

/// What the principal filed under `escrow` may draw of `token` from the
/// wallet filed under `owner`.
pub open spec fn allowance_of(
    ledger: LedgerState,
    owner: Seq<u8>,
    token: Seq<char>,
    escrow: Seq<u8>,
) -> u128 {
    account_of(ledger, owner, token).allowance(escrow)
}

/// The ledger with `account` as the account of `token` in the wallet filed
/// under `owner`.
pub open spec fn with_account(
    ledger: LedgerState,
    owner: Seq<u8>,
    token: Seq<char>,
    account: AccountState,
) -> LedgerState {
    put(ledger, owner, put(wallet_of(ledger, owner), token, account))
}

/// The sum of what all wallets hold of `token`.
pub open spec fn total_balance(ledger: LedgerState, token: Seq<char>) -> nat
    decreases ledger.len(),
{
    if ledger.len() == 0 {
        0
    } else {
        total_balance(ledger.drop_last(), token) + balance_in(ledger.last().1, token) as nat
    }
}

/// What `qty` units of the base asset cost at `price` ticks each, in whole
/// units of the quote asset; what is left of a unit is dropped. `None` where
/// price times quantity is more than 128 bits can count.
pub open spec fn quote_amount(price: u128, qty: u128) -> Option<u128> {
    if price * qty > u128::MAX {
        None
    } else {
        Some(((price * qty) / (PRICE_SCALE as int)) as u128)
    }
}

/// The ledger after `amount` of `token` left the account of `owner`. Where
/// another principal drew it, `escrow` is the key of that principal, and its
/// allowance on the account goes down by the same amount.
pub open spec fn debited(
    ledger: LedgerState,
    escrow: Option<Seq<u8>>,
    owner: Seq<u8>,
    token: Seq<char>,
    amount: u128,
) -> LedgerState {
    let account = account_of(ledger, owner, token);
    let spent = account.with_balance((account.balance - amount) as u128);
    let charged = if escrow is Some {
        spent.with_allowance(
            escrow->0,
            (account.allowance(escrow->0) - amount) as u128,
        )
    } else {
        spent
    };
    with_account(ledger, owner, token, charged)
}

/// The ledger after `amount` of `token` came to the account of `recipient`.
pub open spec fn credited(
    ledger: LedgerState,
    recipient: Seq<u8>,
    token: Seq<char>,
    amount: u128,
) -> LedgerState {
    let account = account_of(ledger, recipient, token);
    with_account(
        ledger,
        recipient,
        token,
        account.with_balance((account.balance + amount) as u128),
    )
}

/// Why `amount` of `token` cannot be moved from `owner` to `recipient`, if
/// it cannot. Where the owner itself moves it, `escrow` is `None`; where
/// another principal draws it, `escrow` is the key of that principal. The
/// rules are checked in this order: the amount is positive; the owner holds
/// it; a principal that is not the owner may draw it; the recipient can hold
/// it.
pub open spec fn transfer_refusal(
    ledger: LedgerState,
    escrow: Option<Seq<u8>>,
    owner: Seq<u8>,
    recipient: Seq<u8>,
    token: Seq<char>,
    amount: u128,
) -> Option<LedgerError> {
    if amount == 0 {
        Some(LedgerError::ZeroTransfer)
    } else if balance_of(ledger, owner, token) < amount {
        Some(LedgerError::NotEnoughBalance)
    } else if escrow is Some && allowance_of(
        ledger,
        owner,
        token,
        escrow->0,
    ) < amount {
        Some(LedgerError::NotEnoughAllowance)
    } else if balance_of(
        debited(ledger, escrow, owner, token, amount),
        recipient,
        token,
    ) + amount > u128::MAX {
        Some(LedgerError::BalanceOverflow)
    } else {
        None
    }
}

/// The ledger after `amount` of `token` was moved from `owner` to
/// `recipient`.
pub open spec fn transferred(
    ledger: LedgerState,
    escrow: Option<Seq<u8>>,
    owner: Seq<u8>,
    recipient: Seq<u8>,
    token: Seq<char>,
    amount: u128,
) -> LedgerState {
    credited(debited(ledger, escrow, owner, token, amount), recipient, token, amount)
}

/// A ledger after some transfers, and the refusal that stopped them, if one
/// did.
pub struct Settlement {
    pub ledger: LedgerState,
    pub failure: Option<LedgerError>,
}

/// One transfer: the ledger as it was where the transfer is refused.
pub open spec fn moved(
    ledger: LedgerState,
    escrow: Option<Seq<u8>>,
    owner: Seq<u8>,
    recipient: Seq<u8>,
    token: Seq<char>,
    amount: u128,
) -> Settlement {
    match transfer_refusal(ledger, escrow, owner, recipient, token, amount) {
        Some(reason) => Settlement { ledger, failure: Some(reason) },
        None => Settlement {
            ledger: transferred(ledger, escrow, owner, recipient, token, amount),
            failure: None,
        },
    }
}

/// The wallet filed under an owner and each account in it keep the
/// invariant of the ledger.
pub proof fn lemma_account_wf(ledger: LedgerState, owner: Seq<u8>, token: Seq<char>)
    requires
        ledger_wf(ledger),
    ensures
        wallet_wf(wallet_of(ledger, owner)),
        account_of(ledger, owner, token).wf(),
{
    lemma_position(ledger, owner);
    let wallet = wallet_of(ledger, owner);
    if position(ledger, owner) is Some {
        assert(wallet == ledger[position(ledger, owner)->0].1);
    }
    lemma_position(wallet, token);
    if position(wallet, token) is Some {
        assert(account_in(wallet, token) == wallet[position(wallet, token)->0].1);
    }
}

/// Storing an account changes that account and no other, and keeps the
/// invariant of the ledger.
pub proof fn lemma_with_account(
    ledger: LedgerState,
    owner: Seq<u8>,
    token: Seq<char>,
    account: AccountState,
    other_owner: Seq<u8>,
    other_token: Seq<char>,
)
    ensures
        account_of(with_account(ledger, owner, token, account), other_owner, other_token) == if other_owner
            == owner && other_token == token {
            account
        } else {
            account_of(ledger, other_owner, other_token)
        },
        ledger_wf(ledger) && account.wf() ==> ledger_wf(with_account(ledger, owner, token, account)),
{
    let wallet = wallet_of(ledger, owner);
    let stored = put(wallet, token, account);
    let after = with_account(ledger, owner, token, account);
    lemma_put(ledger, owner, stored, other_owner);
    lemma_put(wallet, token, account, other_token);
    if ledger_wf(ledger) && account.wf() {
        lemma_account_wf(ledger, owner, token);
        lemma_position(wallet, token);
        assert(wallet_wf(stored)) by {
            assert forall|i: int| 0 <= i < stored.len() implies (#[trigger] stored[i]).1.wf() by {
                if i < wallet.len() {
                    if stored[i] != wallet[i] {
                    } else {
                        assert(wallet[i].1.wf());
                    }
                }
            }
        }
        lemma_position(ledger, owner);
        assert forall|i: int| 0 <= i < after.len() implies wallet_wf((#[trigger] after[i]).1) by {
            if i < ledger.len() {
                if after[i] != ledger[i] {
                } else {
                    assert(wallet_wf(ledger[i].1));
                }
            }
        }
    }
}

/// Replacing one wallet changes the sum of what all wallets hold of a token
/// by what the two wallets differ in.
proof fn lemma_total_update(ledger: LedgerState, i: int, entry: (Seq<u8>, WalletState), token: Seq<char>)
    requires
        0 <= i < ledger.len(),
    ensures
        total_balance(ledger.update(i, entry), token) == total_balance(ledger, token) - balance_in(
            ledger[i].1,
            token,
        ) + balance_in(entry.1, token),
    decreases ledger.len(),
{
    let after = ledger.update(i, entry);
    if i == ledger.len() - 1 {
        assert(after.drop_last() =~= ledger.drop_last());
    } else {
        assert(after.drop_last() =~= ledger.drop_last().update(i, entry));
        lemma_total_update(ledger.drop_last(), i, entry, token);
    }
}

/// Storing an account changes the sum of what all wallets hold of its token
/// by what the account's balance changed, and no other sum.
pub proof fn lemma_total_with_account(
    ledger: LedgerState,
    owner: Seq<u8>,
    token: Seq<char>,
    account: AccountState,
    other_token: Seq<char>,
)
    ensures
        total_balance(with_account(ledger, owner, token, account), other_token) == if other_token
            == token {
            total_balance(ledger, token) - balance_of(ledger, owner, token) + account.balance
        } else {
            total_balance(ledger, other_token) as int
        },
{
    let wallet = wallet_of(ledger, owner);
    let stored = put(wallet, token, account);
    let after = with_account(ledger, owner, token, account);
    lemma_put(wallet, token, account, other_token);
    lemma_position(ledger, owner);
    match position(ledger, owner) {
        Some(i) => {
            lemma_total_update(ledger, i, (owner, stored), other_token);
        },
        None => {
            assert(after.drop_last() =~= ledger);
        },
    }
}

/// Ledger conservation: a transfer leaves the sum of what all wallets hold
/// of each token as it was.
pub proof fn lemma_transfer_conserves(
    ledger: LedgerState,
    escrow: Option<Seq<u8>>,
    owner: Seq<u8>,
    recipient: Seq<u8>,
    token: Seq<char>,
    amount: u128,
    any_token: Seq<char>,
)
    requires
        transfer_refusal(ledger, escrow, owner, recipient, token, amount) is None,
    ensures
        total_balance(transferred(ledger, escrow, owner, recipient, token, amount), any_token)
            == total_balance(ledger, any_token),
{
    let before = account_of(ledger, owner, token);
    let spent = before.with_balance((before.balance - amount) as u128);
    let charged = if escrow is Some {
        spent.with_allowance(
            escrow->0,
            (before.allowance(escrow->0) - amount) as u128,
        )
    } else {
        spent
    };
    let middle = debited(ledger, escrow, owner, token, amount);
    lemma_total_with_account(ledger, owner, token, charged, any_token);
    let target = account_of(middle, recipient, token);
    lemma_total_with_account(
        middle,
        recipient,
        token,
        target.with_balance((target.balance + amount) as u128),
        any_token,
    );
}

/// What a transfer does to each account. The owner's balance goes down by
/// the amount and the recipient's goes up by it; where both are one
/// account, it stays. Allowance monotonicity: where a principal other than
/// the owner drew the amount, its allowance on the owner's account goes down
/// by exactly the amount; no other allowance changes, and none changes
/// where the owner itself moved the amount.
pub proof fn lemma_transfer_effect(
    ledger: LedgerState,
    escrow: Option<Seq<u8>>,
    owner: Seq<u8>,
    recipient: Seq<u8>,
    token: Seq<char>,
    amount: u128,
    any_owner: Seq<u8>,
    any_token: Seq<char>,
    any_escrow: Seq<u8>,
)
    requires
        ledger_wf(ledger),
        transfer_refusal(ledger, escrow, owner, recipient, token, amount) is None,
    ensures
        ledger_wf(transferred(ledger, escrow, owner, recipient, token, amount)),
        balance_of(
            transferred(ledger, escrow, owner, recipient, token, amount),
            any_owner,
            any_token,
        ) == balance_of(ledger, any_owner, any_token) - (if any_token == token && any_owner
            == owner {
            amount as int
        } else {
            0
        }) + (if any_token == token && any_owner == recipient {
            amount as int
        } else {
            0
        }),
        allowance_of(
            transferred(ledger, escrow, owner, recipient, token, amount),
            any_owner,
            any_token,
            any_escrow,
        ) == allowance_of(ledger, any_owner, any_token, any_escrow) - (if escrow is Some
            && any_token == token && any_owner == owner && any_escrow
            == escrow->0 {
            amount as int
        } else {
            0
        }),
{
    let caller_key = escrow->0;
    let before = account_of(ledger, owner, token);
    let spent = before.with_balance((before.balance - amount) as u128);
    let left = (before.allowance(caller_key) - amount) as u128;
    let charged = if escrow is Some {
        spent.with_allowance(caller_key, left)
    } else {
        spent
    };
    let middle = debited(ledger, escrow, owner, token, amount);
    lemma_account_wf(ledger, owner, token);
    lemma_with_allowance(spent, caller_key, left, any_escrow);
    lemma_with_account(ledger, owner, token, charged, any_owner, any_token);
    lemma_with_account(ledger, owner, token, charged, recipient, token);
    let target = account_of(middle, recipient, token);
    lemma_account_wf(middle, recipient, token);
    lemma_with_account(
        middle,
        recipient,
        token,
        target.with_balance((target.balance + amount) as u128),
        any_owner,
        any_token,
    );
}

} // verus!
