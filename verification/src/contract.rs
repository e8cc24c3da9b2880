//! The exchange: the ledger, one book for each traded asset, and the
//! settlement of what the books match. It also keeps the requests to list
//! new assets, the votes on them, and the stakes that give the right to
//! vote.
//!
//! Whoever places a limit order puts what the order may cost in escrow with
//! the exchange: the quantity of the base asset for an ask, its price in the
//! quote asset for a bid. A market ask is put in escrow in the same way. A
//! market bid cannot be, as its price is not known; the exchange draws the
//! price of every fill from the trader's account, which the trader has to
//! allow beforehand. Every fill is then paid out of the exchange's own
//! account.
//!
//! A call that fails leaves the exchange as it was. Who is calling, in whose
//! name and when is handed to each method as a plain value. The one thing
//! that the exchange asks of the host is the hash of an account identifier,
//! under which the ledger files the account. A call that is refused for a
//! reason of its own is refused before the host is asked; a call that needs
//! a hash fails without a host. What such a method does once the keys are
//! known is done by a method that takes the keys, which needs no host.

use crate::account::{AccountState, TokenAccount};
use crate::ballot::{has_voted, BallotHandler, BallotState, StakeInfo, UserRequest};
use crate::domain::{Order, OrderSide, OrderType, PRICE_SCALE};
use crate::host::{account_hash, principal_hash, CallContext};
use crate::ledger::{
    account_of, allowance_of, balance_of, ledger_wf, lemma_account_wf, lemma_transfer_conserves,
    lemma_with_account, quote_amount, total_balance, transfer_refusal, transferred, wallet_of,
    with_account, LedgerError, LedgerState,
};
use crate::order_queues::{OrderQueue, QueueState};
use crate::orderbook::{
    keyed, BookState, Failed, OrderProcessingResult, Orderbook, QueueParts, Success,
    MAX_SEQUENCE_ID, MAX_STALLED_INDICES_IN_QUEUE, MIN_SEQUENCE_ID,
};
use crate::request::{Request, RequestId};
use crate::settlement::{
    fill_paid, fills_of, fills_paid, has_fill, is_fill, keyed_fills, lemma_fills_of_some,
    lemma_nothing_to_settle, lemma_settlement_conserves, lemma_settlement_needs_no_host, settled,
    viewed, Fill,
};
use crate::orders::{
    limit_order_cancel_request, new_limit_order_request, new_market_order_request, OrderRequest,
};
use crate::table::{
    delete, distinct_keys, lemma_position, lemma_put, lookup, position, put, Replica, Table,
    TableKey,
};
use crate::token::{Token, STANDARD_PRICE, STANDARD_SUPPLY, STANDARD_TOKEN};
use crate::wallet::TokenWallet;
use vstd::prelude::*;

verus! {

/// What the exchange holds.
pub struct ExchangeState {
    /// Wallets by the hash of their owner.
    pub wallets: LedgerState,
    /// Books by the asset that they trade.
    pub order_books: Seq<(Seq<char>, BookState)>,
    /// The registered assets by their id.
    pub tokens: Seq<(Seq<char>, Token)>,
    /// The account that may register assets.
    pub owner_id: String,
    /// The asset that prices are quoted in.
    pub quote_asset: String,
    /// The requests to list new assets and the votes on them.
    pub ballots: BallotState,
    /// What each account has staked, by the hash of the account.
    pub staking: Seq<(Seq<u8>, StakeInfo)>,
}

/// How long a request can be voted on, in nanoseconds: one day.
pub const VOTING_TIME: u64 = 86_400_000_000_000;

/// The outcome of a call that changes the exchange.
pub struct Done<R> {
    pub state: ExchangeState,
    pub result: Result<R, LedgerError>,
}

/// The key under which `caller` draws on the account of `owner`: none where
/// the owner itself is the caller.
pub open spec fn drawing(caller: Seq<char>, owner: Seq<char>) -> Option<Seq<u8>> {
    if caller != owner {
        Some(principal_hash(caller))
    } else {
        None
    }
}

/// What a key stands for, where there is one.
pub open spec fn key_of(key: Option<Vec<u8>>) -> Option<Seq<u8>> {
    match key {
        Some(bytes) => Some(bytes@),
        None => None,
    }
}

/// Whether a call failed because no host was there to hash an account
/// identifier.
pub open spec fn unanswered<R>(result: Result<R, LedgerError>) -> bool {
    result matches Err(reason) && reason == LedgerError::NoHost
}

/// The side that a word names.
pub open spec fn side_named(side: Seq<char>) -> Option<OrderSide> {
    if side == "Ask"@ {
        Some(OrderSide::Ask)
    } else if side == "Bid"@ {
        Some(OrderSide::Bid)
    } else {
        None
    }
}

/// The allowances of a list, a later one of the same principal in the place
/// of an earlier one.
pub open spec fn gathered(allowances: Seq<(Vec<u8>, u128)>) -> Seq<(Seq<u8>, u128)>
    decreases allowances.len(),
{
    if allowances.len() == 0 {
        Seq::empty()
    } else {
        put(gathered(allowances.drop_last()), allowances.last().0@, allowances.last().1)
    }
}

/// The events of a call as a value.
pub open spec fn events_of(result: Result<OrderProcessingResult, LedgerError>) -> Result<
    Seq<Result<Success, Failed>>,
    LedgerError,
> {
    match result {
        Ok(events) => Ok(events@),
        Err(reason) => Err(reason),
    }
}

/// Whether `after` and `result` are what `request` to the book of `token`
/// makes of `before` at time `now`.
///
/// The book works on the request, and its events are then settled on the
/// ledger one after the other. The call fails without a book of `token` and
/// where a transfer is refused. A request that breaks a rule of the book is
/// not worked on and reports the reason as its only event. In each of these
/// cases the books are left as they were and the ledger is `fallback`, the
/// ledger of before the call.
pub open spec fn request_done(
    before: ExchangeState,
    fallback: LedgerState,
    exchange: Seq<char>,
    now: u64,
    token: Seq<char>,
    request: OrderRequest,
    after: ExchangeState,
    result: Result<Seq<Result<Success, Failed>>, LedgerError>,
) -> bool {
    match before.book_of(token) {
        None => after == before.with_wallets(fallback) && result == Err::<
            Seq<Result<Success, Failed>>,
            LedgerError,
        >(LedgerError::UnknownToken),
        Some(book) => match book.refusal(request) {
            Some(reason) => {
                &&& after == before.with_wallets(fallback)
                &&& result matches Ok(events)
                &&& events.len() == 1
                &&& events[0] matches Err(Failed::ValidationFailed(text))
                &&& text@ == reason.text()
            },
            None => {
                let worked = book.processed(request, now);
                let booked = before.with_book(token, worked.book);
                let paid = settled(
                    booked.wallets,
                    exchange,
                    token,
                    before.quote_asset@,
                    worked.events,
                );
                match paid.failure {
                    Some(reason) => after == before.with_wallets(fallback) && result == Err::<
                        Seq<Result<Success, Failed>>,
                        LedgerError,
                    >(reason),
                    None => after == booked.with_wallets(paid.ledger) && result == Ok::<
                        Seq<Result<Success, Failed>>,
                        LedgerError,
                    >(worked.events),
                }
            },
        },
    }
}

/// Whether the host is asked when `request` is made to the book of `token`.
/// It is where the book works on the request and reports a fill: the ledger
/// has to look up who is paid.
pub open spec fn request_asks(
    before: ExchangeState,
    now: u64,
    token: Seq<char>,
    request: OrderRequest,
) -> bool {
    match before.book_of(token) {
        Some(book) => book.refusal(request) is None && has_fill(
            book.processed(request, now).events,
        ),
        None => false,
    }
}

/// What a new order puts in escrow: the asset and the amount. A limit bid
/// reserves its price in the quote asset, an ask its quantity of the base
/// asset, and a market bid nothing. `None` where the price of a limit bid is
/// more than 128 bits can count.
pub open spec fn escrow_of(
    quote: Seq<char>,
    token: Seq<char>,
    side: OrderSide,
    price: Option<u128>,
    quantity: u128,
) -> Option<(Seq<char>, u128)> {
    match side {
        OrderSide::Ask => Some((token, quantity)),
        OrderSide::Bid => match price {
            Some(limit) => match quote_amount(limit, quantity) {
                Some(amount) => Some((quote, amount)),
                None => None,
            },
            None => Some((quote, 0u128)),
        },
    }
}

/// Whether `after` and `result` are what a new order makes of `before`: a
/// limit order where `price` is given, a market order where it is not.
///
/// The side has to be `Ask` or `Bid`. What the order reserves is moved from
/// the signer to the exchange by the rules of a transfer that the caller
/// makes; a market bid reserves nothing. Then the book of `token_id` works
/// on the order in the signer's name and what it reports is settled. A call
/// that fails changes nothing, and neither does an order that the book
/// refuses.
pub open spec fn order_done(
    before: ExchangeState,
    context: CallContext,
    token_id: String,
    price: Option<u128>,
    quantity: u128,
    side: Seq<char>,
    after: ExchangeState,
    result: Result<Seq<Result<Success, Failed>>, LedgerError>,
) -> bool {
    match side_named(side) {
        None => after == before && result == Err::<Seq<Result<Success, Failed>>, LedgerError>(
            LedgerError::BadSide,
        ),
        Some(parsed) => match escrow_of(
            before.quote_asset@,
            token_id@,
            parsed,
            price,
            quantity,
        ) {
            None => after == before && result == Err::<
                Seq<Result<Success, Failed>>,
                LedgerError,
            >(LedgerError::AmountOverflow),
            Some((asset, amount)) => {
                let reserved = price is Some || parsed == OrderSide::Ask;
                let refusal = if reserved {
                    transfer_refusal(
                        before.wallets,
                        drawing(context.predecessor@, context.signer@),
                        principal_hash(context.signer@),
                        principal_hash(context.current@),
                        asset,
                        amount,
                    )
                } else {
                    None
                };
                if refusal is Some {
                    after == before && result == Err::<Seq<Result<Success, Failed>>, LedgerError>(
                        refusal->0,
                    )
                } else if before.book_of(token_id@) is None {
                    after == before && result == Err::<Seq<Result<Success, Failed>>, LedgerError>(
                        LedgerError::UnknownToken,
                    )
                } else {
                    request_done(
                        if reserved {
                            before.with_wallets(
                                transferred(
                                    before.wallets,
                                    drawing(context.predecessor@, context.signer@),
                                    principal_hash(context.signer@),
                                    principal_hash(context.current@),
                                    asset,
                                    amount,
                                ),
                            )
                        } else {
                            before
                        },
                        before.wallets,
                        context.current@,
                        context.now,
                        token_id@,
                        new_order(before.quote_asset, context, token_id, parsed, price, quantity),
                        after,
                        result,
                    )
                }
            },
        },
    }
}

/// Whether the host is asked when a new order is placed. It is where the
/// order puts a positive amount in escrow, and where a market bid, which
/// puts nothing in escrow, is filled.
pub open spec fn order_asks(
    before: ExchangeState,
    context: CallContext,
    token_id: String,
    price: Option<u128>,
    quantity: u128,
    side: Seq<char>,
) -> bool {
    match side_named(side) {
        None => false,
        Some(parsed) => match escrow_of(before.quote_asset@, token_id@, parsed, price, quantity) {
            None => false,
            Some((asset, amount)) => if price is Some || parsed == OrderSide::Ask {
                amount > 0
            } else {
                request_asks(
                    before,
                    context.now,
                    token_id@,
                    new_order(before.quote_asset, context, token_id, parsed, price, quantity),
                )
            },
        },
    }
}

/// The request that a new order makes to its book.
pub open spec fn new_order(
    quote_asset: String,
    context: CallContext,
    token_id: String,
    side: OrderSide,
    price: Option<u128>,
    quantity: u128,
) -> OrderRequest {
    match price {
        Some(limit) => OrderRequest::NewLimitOrder {
            order_asset: token_id,
            price_asset: quote_asset,
            side,
            price: limit,
            qty: quantity,
            order_creator: context.signer,
            ts: context.now,
        },
        None => OrderRequest::NewMarketOrder {
            order_asset: token_id,
            price_asset: quote_asset,
            side,
            qty: quantity,
            order_creator: context.signer,
            ts: context.now,
        },
    }
}

/// Whether `after` and `result` are what cancelling the order `id` makes of
/// `before` at time `now`. The side has to be `Ask` or `Bid`, and there has
/// to be a book of `token_id`. The book then takes the order out and reports
/// it as cancelled, or reports that it holds no such order. The ledger stays
/// as it is: what the order had in escrow stays with the exchange.
pub open spec fn cancel_done(
    before: ExchangeState,
    now: u64,
    token_id: Seq<char>,
    id: u64,
    side: Seq<char>,
    after: ExchangeState,
    result: Result<Seq<Result<Success, Failed>>, LedgerError>,
) -> bool {
    match side_named(side) {
        None => after == before && result == Err::<Seq<Result<Success, Failed>>, LedgerError>(
            LedgerError::BadSide,
        ),
        Some(parsed) => match before.book_of(token_id) {
            None => after == before && result == Err::<Seq<Result<Success, Failed>>, LedgerError>(
                LedgerError::UnknownToken,
            ),
            Some(book) => {
                let worked = book.cancel_processed(id, parsed, now);
                after == before.with_book(token_id, worked.book) && result == Ok::<
                    Seq<Result<Success, Failed>>,
                    LedgerError,
                >(worked.events)
            },
        },
    }
}

impl ExchangeState {
    /// The invariant of the exchange.
    pub open spec fn wf(self) -> bool {
        &&& ledger_wf(self.wallets)
        &&& distinct_keys(self.order_books)
        &&& forall|i: int|
            0 <= i < self.order_books.len() ==> (#[trigger] self.order_books[i]).1.wf()
    }

    /// The exchange with another ledger.
    pub open spec fn with_wallets(self, wallets: LedgerState) -> ExchangeState {
        ExchangeState { wallets, ..self }
    }

    /// The book that trades `token`, if there is one.
    pub open spec fn book_of(self, token: Seq<char>) -> Option<BookState> {
        lookup(self.order_books, token)
    }

    /// The exchange with `book` as the book that trades `token`.
    pub open spec fn with_book(self, token: Seq<char>, book: BookState) -> ExchangeState {
        ExchangeState { order_books: put(self.order_books, token, book), ..self }
    }

    /// The exchange before anything is registered.
    pub open spec fn opened(owner_id: String, quote_asset: String) -> ExchangeState {
        ExchangeState {
            wallets: Seq::empty(),
            order_books: Seq::empty(),
            tokens: Seq::empty(),
            owner_id,
            quote_asset,
            ballots: BallotState::empty(),
            staking: Seq::empty(),
        }
    }

    /// What the account that is filed under `staker` has staked.
    pub open spec fn staked_by(self, staker: Seq<u8>) -> u128 {
        match lookup(self.staking, staker) {
            Some(stake) => stake.staked,
            None => 0,
        }
    }

    /// What a stake does between keys: an account without a stake, filed
    /// under `staker`, moves `amount` of the quote asset to the account
    /// filed under `owner` and has it staked from `now` on.
    pub open spec fn staked_between(
        self,
        staker: Seq<u8>,
        owner: Seq<u8>,
        now: u64,
        amount: u128,
    ) -> Done<()> {
        if self.staked_by(staker) != 0 {
            Done { state: self, result: Err(LedgerError::AlreadyStaked) }
        } else {
            match transfer_refusal(self.wallets, None, staker, owner, self.quote_asset@, amount) {
                Some(reason) => Done { state: self, result: Err(reason) },
                None => Done {
                    state: ExchangeState {
                        wallets: transferred(
                            self.wallets,
                            None,
                            staker,
                            owner,
                            self.quote_asset@,
                            amount,
                        ),
                        staking: put(
                            self.staking,
                            staker,
                            StakeInfo { staked: amount, created_time: now },
                        ),
                        ..self
                    },
                    result: Ok(()),
                },
            }
        }
    }

    /// What `stake` does when `staker` calls it at time `now`: the stake
    /// goes to the owner of the exchange.
    pub open spec fn stake_done(self, staker: Seq<char>, now: u64, amount: u128) -> Done<()> {
        self.staked_between(principal_hash(staker), principal_hash(self.owner_id@), now, amount)
    }

    /// What the end of a stake does between keys: the account filed under
    /// `owner` pays `payout` of the quote asset to the account with a stake
    /// that is filed under `staker`, and the stake is gone.
    pub open spec fn unstaked_between(self, staker: Seq<u8>, owner: Seq<u8>, payout: u128) -> Done<
        (),
    > {
        if self.staked_by(staker) == 0 {
            Done { state: self, result: Err(LedgerError::NothingStaked) }
        } else {
            match transfer_refusal(self.wallets, None, owner, staker, self.quote_asset@, payout) {
                Some(reason) => Done { state: self, result: Err(reason) },
                None => Done {
                    state: ExchangeState {
                        wallets: transferred(
                            self.wallets,
                            None,
                            owner,
                            staker,
                            self.quote_asset@,
                            payout,
                        ),
                        staking: delete(self.staking, staker),
                        ..self
                    },
                    result: Ok(()),
                },
            }
        }
    }

    /// What `unstake` does when `staker` calls it: the owner of the
    /// exchange pays the stake out.
    pub open spec fn unstake_done(self, staker: Seq<char>, payout: u128) -> Done<()> {
        self.unstaked_between(principal_hash(staker), principal_hash(self.owner_id@), payout)
    }

    /// What `add_new_request` does when `owner` calls it at time `now`: the
    /// request is filed unless it asks for an asset that is registered.
    pub open spec fn request_filed(self, owner: String, now: u64, request: UserRequest) -> Done<()> {
        if lookup(self.tokens, request.token_id@) is Some {
            Done { state: self, result: Err(LedgerError::TokenExists) }
        } else {
            Done {
                state: ExchangeState {
                    ballots: self.ballots.request_added(owner, now, request),
                    ..self
                },
                result: Ok(()),
            }
        }
    }

    /// Why `voter`, whose stake is filed under `key`, cannot vote on a
    /// request at time `now`, if it cannot: there is no such request, the
    /// time to vote is over, the voter has no stake, or it has voted before.
    pub open spec fn vote_refusal_at(
        self,
        voter: Seq<char>,
        key: Seq<u8>,
        now: u64,
        request_id: u64,
    ) -> Option<LedgerError> {
        match lookup(self.ballots.requests, request_id) {
            None => Some(LedgerError::NoSuchRequest),
            Some(request) => if request.created_time + VOTING_TIME < now {
                Some(LedgerError::VotingEnded)
            } else if self.staked_by(key) == 0 {
                Some(LedgerError::NothingStaked)
            } else if has_voted(self.ballots.votes_on(request_id), voter) {
                Some(LedgerError::AlreadyVoted)
            } else {
                None
            },
        }
    }

    /// What a vote of `voter`, whose stake is filed under `key`, does at
    /// time `now`.
    pub open spec fn vote_done_at(
        self,
        voter: String,
        key: Seq<u8>,
        now: u64,
        request_id: u64,
        vote: bool,
    ) -> Done<()> {
        match self.vote_refusal_at(voter@, key, now, request_id) {
            Some(reason) => Done { state: self, result: Err(reason) },
            None => Done {
                state: ExchangeState {
                    ballots: self.ballots.vote_cast(voter, request_id, vote),
                    ..self
                },
                result: Ok(()),
            },
        }
    }

    /// Whether the host is asked when a vote is cast: it is where the
    /// request exists and can still be voted on, to look up the voter's
    /// stake.
    pub open spec fn vote_asks(self, now: u64, request_id: u64) -> bool {
        match lookup(self.ballots.requests, request_id) {
            Some(request) => request.created_time + VOTING_TIME >= now,
            None => false,
        }
    }

    /// What `vote` does when `voter` calls it at time `now`.
    pub open spec fn vote_done(self, voter: String, now: u64, request_id: u64, vote: bool) -> Done<
        (),
    > {
        self.vote_done_at(voter, principal_hash(voter@), now, request_id, vote)
    }

    /// Why a request cannot be closed at time `now`, if it cannot: there is
    /// no such request, or the time to vote on it is not over.
    pub open spec fn finalize_refusal(self, now: u64, request_id: u64) -> Option<LedgerError> {
        match lookup(self.ballots.requests, request_id) {
            None => Some(LedgerError::NoSuchRequest),
            Some(request) => if request.created_time + VOTING_TIME > now {
                Some(LedgerError::VotingNotOver)
            } else {
                None
            },
        }
    }

    /// The exchange after `token` was registered: its supply is what its
    /// owner now holds of it, and an empty book trades it against the quote
    /// asset.
    pub open spec fn registered(self, token: Token) -> ExchangeState {
        self.registered_at(principal_hash(token.owner_id@), token)
    }

    /// The exchange after `token` was registered for an owner whose wallet
    /// is filed under `owner`.
    pub open spec fn registered_at(self, owner: Seq<u8>, token: Token) -> ExchangeState {
        ExchangeState {
            wallets: with_account(
                self.wallets,
                owner,
                token.token_id@,
                account_of(self.wallets, owner, token.token_id@).with_balance(token.supply),
            ),
            order_books: put(
                self.order_books,
                token.token_id@,
                Orderbook::fresh(token.token_id, self.quote_asset),
            ),
            tokens: put(self.tokens, token.token_id@, token),
            ..self
        }
    }

    /// What `add_token` does when `caller` calls it.
    pub open spec fn token_added(self, caller: Seq<char>, token: Token) -> Done<()> {
        if caller != self.owner_id@ {
            Done { state: self, result: Err(LedgerError::NotOwner) }
        } else {
            Done { state: self.registered(token), result: Ok(()) }
        }
    }

    /// What `set_allowance` does when `owner` calls it.
    pub open spec fn allowance_set(
        self,
        owner: Seq<char>,
        escrow: Seq<char>,
        token: Seq<char>,
        allowance: u128,
    ) -> Done<()> {
        if escrow == owner {
            Done { state: self, result: Err(LedgerError::SelfAllowance) }
        } else {
            Done {
                state: self.allowed_between(
                    principal_hash(owner),
                    principal_hash(escrow),
                    token,
                    allowance,
                ),
                result: Ok(()),
            }
        }
    }

    /// The exchange after the principal filed under `escrow` was allowed to
    /// draw up to `allowance` of `token` from the account filed under
    /// `owner`.
    pub open spec fn allowed_between(
        self,
        owner: Seq<u8>,
        escrow: Seq<u8>,
        token: Seq<char>,
        allowance: u128,
    ) -> ExchangeState {
        self.with_wallets(
            with_account(
                self.wallets,
                owner,
                token,
                account_of(self.wallets, owner, token).with_allowance(escrow, allowance),
            ),
        )
    }

    /// What `transfer_from` does when `caller` calls it: nothing where a
    /// rule refuses the transfer.
    pub open spec fn transfer_done(
        self,
        caller: Seq<char>,
        owner: Seq<char>,
        recipient: Seq<char>,
        token: Seq<char>,
        amount: u128,
    ) -> Done<()> {
        match transfer_refusal(
            self.wallets,
            drawing(caller, owner),
            principal_hash(owner),
            principal_hash(recipient),
            token,
            amount,
        ) {
            Some(reason) => Done { state: self, result: Err(reason) },
            None => Done {
                state: self.with_wallets(
                    transferred(
                        self.wallets,
                        drawing(caller, owner),
                        principal_hash(owner),
                        principal_hash(recipient),
                        token,
                        amount,
                    ),
                ),
                result: Ok(()),
            },
        }
    }

    /// What `pay_standard_token` does when `caller` calls it: the owner of
    /// the exchange pays `amount` times the standard price in the quote
    /// asset to `to`.
    pub open spec fn standard_token_paid(self, caller: Seq<char>, amount: u128, to: Seq<char>) -> Done<
        (),
    > {
        if STANDARD_PRICE * amount > u128::MAX {
            Done { state: self, result: Err(LedgerError::AmountOverflow) }
        } else {
            self.transfer_done(
                caller,
                self.owner_id@,
                to,
                self.quote_asset@,
                (STANDARD_PRICE * amount) as u128,
            )
        }
    }
}

/// The exchange.
pub struct Contract {
    wallets: Table<Vec<u8>, TokenWallet>,
    order_books: Table<String, Orderbook>,
    tokens: Table<String, Token>,
    owner_id: String,
    quote_asset: String,
    ballot_handler: BallotHandler,
    staking: Table<Vec<u8>, StakeInfo>,
}

impl View for Contract {
    type V = ExchangeState;

    closed spec fn view(&self) -> ExchangeState {
        ExchangeState {
            wallets: self.wallets@,
            order_books: self.order_books@,
            tokens: self.tokens@,
            owner_id: self.owner_id,
            quote_asset: self.quote_asset,
            ballots: self.ballot_handler@,
            staking: self.staking@,
        }
    }
}

impl Contract {
    /// The invariant that every method keeps.
    pub open spec fn wf(&self) -> bool {
        self@.wf()
    }

    /// The exchange of `owner_id` before anything is registered.
    pub fn empty(owner_id: String) -> (contract: Self)
        ensures
            contract.wf(),
            contract@.quote_asset@ == STANDARD_TOKEN@,
            contract@ == ExchangeState::opened(owner_id, contract@.quote_asset),
    {
        Contract {
            wallets: Table::new(),
            order_books: Table::new(),
            tokens: Table::new(),
            owner_id,
            quote_asset: STANDARD_TOKEN.to_string(),
            ballot_handler: BallotHandler::new(),
            staking: Table::new(),
        }
    }

    /// Files what `stake` the account that is filed under `staker_hash`
    /// has, and nothing else.
    pub fn restore_stake(&mut self, staker_hash: Vec<u8>, stake: StakeInfo)
        requires
            old(self).wf(),
        ensures
            final(self).wf(),
            final(self)@ == (ExchangeState {
                staking: put(old(self)@.staking, staker_hash@, stake),
                ..old(self)@
            }),
    {
        self.staking.put(staker_hash, stake);
    }

    /// Puts `ballot_handler` in the place of the requests and votes.
    pub fn restore_ballot(&mut self, ballot_handler: BallotHandler)
        requires
            old(self).wf(),
        ensures
            final(self).wf(),
            final(self)@ == (ExchangeState { ballots: ballot_handler@, ..old(self)@ }),
    {
        self.ballot_handler = ballot_handler;
    }

    /// The requests and the votes on them.
    pub fn ballot_handler(&self) -> (ballot_handler: &BallotHandler)
        ensures
            ballot_handler@ == self@.ballots,
    {
        &self.ballot_handler
    }

    /// What each account has staked, by the hash of the account.
    pub fn staking(&self) -> (staking: &Table<Vec<u8>, StakeInfo>)
        ensures
            staking@ == self@.staking,
    {
        &self.staking
    }

    /// Files `token` among the registered assets, and nothing else.
    pub fn restore_token(&mut self, token: Token)
        requires
            old(self).wf(),
        ensures
            final(self).wf(),
            final(self)@ == (ExchangeState {
                tokens: put(old(self)@.tokens, token.token_id@, token),
                ..old(self)@
            }),
    {
        self.tokens.put(token.token_id.clone(), token);
    }

    /// Stores the account of `token_id` in the wallet that is filed under
    /// `owner_hash`: its balance, and its allowances as listed, a later one
    /// of the same principal in the place of an earlier one.
    pub fn restore_account(
        &mut self,
        owner_hash: Vec<u8>,
        token_id: String,
        balance: u128,
        allowances: Vec<(Vec<u8>, u128)>,
    )
        requires
            old(self).wf(),
        ensures
            final(self).wf(),
            final(self)@ == old(self)@.with_wallets(
                with_account(
                    old(self)@.wallets,
                    owner_hash@,
                    token_id@,
                    AccountState { balance, allowances: gathered(allowances@) },
                ),
            ),
    {
        let mut account = TokenAccount::new();
        account.balance = balance;
        let mut i: usize = 0;
        while i < allowances.len()
            invariant
                i <= allowances@.len(),
                account.wf(),
                account@ == (AccountState {
                    balance,
                    allowances: gathered(allowances@.take(i as int)),
                }),
            decreases allowances@.len() - i,
        {
            proof {
                assert(allowances@.take(i + 1).drop_last() =~= allowances@.take(i as int));
                lemma_put(
                    account@.allowances,
                    allowances@[i as int].0@,
                    allowances@[i as int].1,
                    allowances@[i as int].0@,
                );
            }
            account.allowances.put(allowances[i].0.replica(), allowances[i].1);
            i = i + 1;
        }
        proof {
            assert(allowances@.take(i as int) =~= allowances@);
        }
        self.set_account_at(owner_hash, &account, &token_id);
    }

    /// Stores the book of `token_id`: it trades against the quote asset,
    /// hands out `next_id` next and holds the queues that the given parts
    /// describe. Returns `false` and changes nothing where `next_id` is no
    /// id that a book hands out, the parts of a side do not make a queue, or
    /// an order is not what its key ranks: it has to carry the id and the
    /// price of the key and the side of its queue, and an open quantity.
    pub fn restore_book(
        &mut self,
        token_id: String,
        next_id: u64,
        bids: QueueParts,
        asks: QueueParts,
    ) -> (restored: bool)
        requires
            old(self).wf(),
        ensures
            final(self).wf(),
            restored == (MIN_SEQUENCE_ID <= next_id <= MAX_SEQUENCE_ID && bids.state(
                OrderSide::Bid,
            ).wf() && asks.state(OrderSide::Ask).wf() && keyed(bids.state(OrderSide::Bid)) && keyed(
                asks.state(OrderSide::Ask),
            )),
            final(self)@ == if restored {
                old(self)@.with_book(
                    token_id@,
                    BookState {
                        bids: bids.state(OrderSide::Bid),
                        asks: asks.state(OrderSide::Ask),
                        next_id,
                        ..Orderbook::fresh(token_id, old(self)@.quote_asset)
                    },
                )
            } else {
                old(self)@
            },
    {
        let bid_queue = match OrderQueue::from_parts(
            OrderSide::Bid,
            MAX_STALLED_INDICES_IN_QUEUE,
            bids.op_counter,
            bids.index,
            bids.orders,
        ) {
            Some(queue) => queue,
            None => {
                return false;
            },
        };
        let ask_queue = match OrderQueue::from_parts(
            OrderSide::Ask,
            MAX_STALLED_INDICES_IN_QUEUE,
            asks.op_counter,
            asks.index,
            asks.orders,
        ) {
            Some(queue) => queue,
            None => {
                return false;
            },
        };
        match Orderbook::from_parts(
            token_id.clone(),
            self.quote_asset.clone(),
            next_id,
            bid_queue,
            ask_queue,
        ) {
            Some(book) => {
                proof {
                    lemma_books_put(self@.order_books, token_id@, book@);
                }
                self.order_books.put(token_id, book);
                true
            },
            None => false,
        }
    }

    /// The wallets by the hash of their owner.
    pub fn wallets(&self) -> (wallets: &Table<Vec<u8>, TokenWallet>)
        ensures
            wallets@ == self@.wallets,
    {
        &self.wallets
    }

    /// The books by the asset that they trade.
    pub fn order_books(&self) -> (order_books: &Table<String, Orderbook>)
        ensures
            order_books@ == self@.order_books,
    {
        &self.order_books
    }

    /// The registered assets by their id.
    pub fn tokens(&self) -> (tokens: &Table<String, Token>)
        ensures
            tokens@ == self@.tokens,
    {
        &self.tokens
    }

    /// The account that may register assets.
    pub fn owner_id(&self) -> (owner_id: &String)
        ensures
            *owner_id == self@.owner_id,
    {
        &self.owner_id
    }

    /// The registered assets, in the order in which they were first
    /// registered.
    pub fn get_tokens(&self) -> (tokens: Vec<Token>)
        ensures
            tokens@.len() == self@.tokens.len(),
            forall|i: int| 0 <= i < tokens@.len() ==> tokens@[i] == (#[trigger] self@.tokens[i]).1,
    {
        let mut result: Vec<Token> = Vec::new();
        let mut i: usize = 0;
        while i < self.tokens.len()
            invariant
                i <= self.tokens@.len(),
                result@.len() == i,
                forall|k: int| 0 <= k < i ==> result@[k] == (#[trigger] self.tokens@[k]).1,
            decreases self.tokens@.len() - i,
        {
            result.push(self.tokens.value_at(i).clone());
            i = i + 1;
        }
        result
    }

    /// Number of units of the quote asset that exist.
    pub fn get_total_supply(&self) -> (supply: u128)
        ensures
            supply == STANDARD_SUPPLY,
    {
        STANDARD_SUPPLY
    }

    /// Number of units of the quote asset that one unit of the host's own
    /// currency buys.
    pub fn get_standard_price(&self) -> (price: u128)
        ensures
            price == STANDARD_PRICE,
    {
        STANDARD_PRICE
    }

    /// A copy of the name of the quote asset.
    pub fn get_standard_token(&self) -> (token: String)
        ensures
            token == self@.quote_asset,
    {
        self.quote_asset.clone()
    }

    /// A copy of the wallet that is filed under `owner_hash`.
    pub fn wallet_at(&self, owner_hash: &Vec<u8>) -> (wallet: TokenWallet)
        ensures
            wallet@ == wallet_of(self@.wallets, owner_hash@),
    {
        match self.wallets.get(owner_hash) {
            Some(wallet) => wallet.replica(),
            None => TokenWallet::new(),
        }
    }

    /// A copy of the account of `token_id` in the wallet that is filed under
    /// `owner_hash`.
    pub fn account_at(&self, owner_hash: &Vec<u8>, token_id: &String) -> (account: TokenAccount)
        ensures
            account@ == account_of(self@.wallets, owner_hash@, token_id@),
    {
        let found = match self.wallets.get(owner_hash) {
            Some(wallet) => wallet.get_account(token_id),
            None => None,
        };
        match found {
            Some(account) => account,
            None => TokenAccount::new(),
        }
    }

    /// Stores a copy of `account` as the account of `token_id` in the wallet
    /// that is filed under `owner_hash`.
    pub fn set_account_at(&mut self, owner_hash: Vec<u8>, account: &TokenAccount, token_id: &String)
        requires
            old(self).wf(),
            account.wf(),
        ensures
            final(self).wf(),
            final(self)@ == old(self)@.with_wallets(
                with_account(old(self)@.wallets, owner_hash@, token_id@, account@),
            ),
    {
        let mut wallet = self.wallet_at(&owner_hash);
        wallet.set_account(token_id, account);
        proof {
            lemma_with_account(
                self@.wallets,
                owner_hash@,
                token_id@,
                account@,
                owner_hash@,
                token_id@,
            );
        }
        self.wallets.put(owner_hash, wallet);
    }

    /// Moves `amount` of `token_id` from the wallet that is filed under
    /// `owner` to the one that is filed under `recipient`, or refuses to and
    /// changes nothing. Where the owner itself moves the amount, `escrow` is
    /// `None`; where another principal draws it, `escrow` is the key under
    /// which its allowance is filed.
    pub fn transfer_between(
        &mut self,
        escrow: Option<Vec<u8>>,
        owner: Vec<u8>,
        recipient: Vec<u8>,
        token_id: &String,
        amount: u128,
    ) -> (result: Result<(), LedgerError>)
        requires
            old(self).wf(),
        ensures
            final(self).wf(),
            match transfer_refusal(
                old(self)@.wallets,
                key_of(escrow),
                owner@,
                recipient@,
                token_id@,
                amount,
            ) {
                Some(reason) => final(self)@ == old(self)@ && result == Err::<(), LedgerError>(
                    reason,
                ),
                None => final(self)@ == old(self)@.with_wallets(
                    transferred(
                        old(self)@.wallets,
                        key_of(escrow),
                        owner@,
                        recipient@,
                        token_id@,
                        amount,
                    ),
                ) && result == Ok::<(), LedgerError>(()),
            },
    {
        if let Some(reason) = self.transfer_check_between(
            &escrow,
            &owner,
            &recipient,
            token_id,
            amount,
        ) {
            return Err(reason);
        }
        let mut account = self.account_at(&owner, token_id);
        proof {
            lemma_account_wf(self@.wallets, owner@, token_id@);
        }
        account.balance = account.balance - amount;
        match escrow {
            Some(key) => {
                let allowance = account.allowance_for(&key);
                account.set_allowance_for(key, allowance - amount);
            },
            None => {},
        }
        self.set_account_at(owner, &account, token_id);
        let mut new_account = self.account_at(&recipient, token_id);
        proof {
            lemma_account_wf(self@.wallets, recipient@, token_id@);
        }
        new_account.balance = new_account.balance + amount;
        self.set_account_at(recipient, &new_account, token_id);
        Ok(())
    }

    /// Why `amount` of `token_id` cannot be moved from the wallet that is
    /// filed under `owner` to the one that is filed under `recipient`, if it
    /// cannot.
    pub fn transfer_check_between(
        &self,
        escrow: &Option<Vec<u8>>,
        owner: &Vec<u8>,
        recipient: &Vec<u8>,
        token_id: &String,
        amount: u128,
    ) -> (refusal: Option<LedgerError>)
        ensures
            refusal == transfer_refusal(
                self@.wallets,
                key_of(*escrow),
                owner@,
                recipient@,
                token_id@,
                amount,
            ),
    {
        if amount == 0 {
            return Some(LedgerError::ZeroTransfer);
        }
        let mut account = self.account_at(owner, token_id);
        if account.balance < amount {
            return Some(LedgerError::NotEnoughBalance);
        }
        account.balance = account.balance - amount;
        match escrow {
            Some(key) => {
                let allowance = account.allowance_for(key);
                if allowance < amount {
                    return Some(LedgerError::NotEnoughAllowance);
                }
                account.set_allowance_for(key.replica(), allowance - amount);
            },
            None => {},
        }
        let held: u128 = if owner.same(recipient) {
            account.balance
        } else {
            self.account_at(recipient, token_id).balance
        };
        proof {
            lemma_with_account(
                self@.wallets,
                owner@,
                token_id@,
                account@,
                recipient@,
                token_id@,
            );
        }
        if held > u128::MAX - amount {
            return Some(LedgerError::BalanceOverflow);
        }
        None
    }

    /// The side that a word names.
    pub fn parse_side(side: &String) -> (parsed: Option<OrderSide>)
        ensures
            parsed == side_named(side@),
    {
        let ask = "Ask".to_string();
        let bid = "Bid".to_string();
        if side.same(&ask) {
            Some(OrderSide::Ask)
        } else if side.same(&bid) {
            Some(OrderSide::Bid)
        } else {
            None
        }
    }

    /// What `qty` units cost at `price` ticks each.
    pub fn cost(price: u128, qty: u128) -> (amount: Option<u128>)
        ensures
            amount == quote_amount(price, qty),
    {
        match price.checked_mul(qty) {
            Some(ticks) => Some(ticks / PRICE_SCALE),
            None => None,
        }
    }

    /// Hands `order` to the book of `token_id` and settles what the book
    /// reports. Where the call fails or the book refuses the order, the books
    /// are left as they were and `fallback` becomes the ledger.
    fn post_transfer(
        &mut self,
        context: &CallContext,
        token_id: &String,
        order: OrderRequest,
        fallback: Table<Vec<u8>, TokenWallet>,
    ) -> (result: Result<OrderProcessingResult, LedgerError>)
        requires
            old(self).wf(),
            ledger_wf(fallback@),
        ensures
            final(self).wf(),
            unanswered(result) ==> request_asks(old(self)@, context.now, token_id@, order)
                && final(self)@ == old(self)@.with_wallets(fallback@),
            !unanswered(result) ==> request_done(
                old(self)@,
                fallback@,
                context.current@,
                context.now,
                token_id@,
                order,
                final(self)@,
                events_of(result),
            ),
    {
        proof {
            lemma_position(self@.order_books, token_id@);
        }
        let saved = match self.order_books.get(token_id) {
            Some(order_book) => order_book.clone(),
            None => {
                self.wallets = fallback;
                return Err(LedgerError::UnknownToken);
            },
        };
        let res = match self.order_books.get_mut(token_id) {
            Some(order_book) => order_book.process_order(order, context.now),
            None => {
                self.wallets = fallback;
                return Err(LedgerError::UnknownToken);
            },
        };
        let ghost book = old(self)@.book_of(token_id@)->0;
        let ghost booked = self@;
        proof {
            let i = position(old(self)@.order_books, token_id@)->0;
            assert(old(self)@.order_books[i].1 == book);
            assert(book.wf());
            if book.refusal(order) is None {
                let worked = book.processed(order, context.now);
                lemma_books_put(old(self)@.order_books, token_id@, worked.book);
                assert(self@.order_books =~= put(old(self)@.order_books, token_id@, worked.book));
                assert(booked == old(self)@.with_book(token_id@, worked.book));
                assert(res@ == worked.events);
                assert(worked.events.len() > 0);
                assert(!(worked.events[0] matches Err(Failed::ValidationFailed(_))));
            } else {
                assert(self@.order_books =~= old(self)@.order_books);
                assert(booked == old(self)@);
            }
        }
        let refused = match &res[0] {
            Err(Failed::ValidationFailed(_)) => true,
            _ => false,
        };
        if refused {
            self.wallets = fallback;
            return Ok(res);
        }
        match self.process_orderbook_result(context, token_id, &res) {
            Ok(()) => Ok(res),
            Err(reason) => {
                proof {
                    lemma_books_put(self@.order_books, token_id@, saved@);
                    lemma_position(self@.order_books, token_id@);
                    let i = position(old(self)@.order_books, token_id@)->0;
                    let j = position(self@.order_books, token_id@)->0;
                    assert(self@.order_books[i].0 == token_id@);
                    if i < j {
                        assert(self@.order_books[i].0 != self@.order_books[j].0);
                    }
                    assert(put(self@.order_books, token_id@, saved@) =~= old(self)@.order_books);
                }
                self.wallets = fallback;
                self.order_books.put(token_id.clone(), saved);
                Err(reason)
            },
        }
    }

    /// Copies of all requests.
    pub fn get_all_requests(&self) -> (requests: Vec<Request>)
        ensures
            requests@.len() == self@.ballots.requests.len(),
            forall|i: int|
                0 <= i < requests@.len() ==> requests@[i] == (#[trigger] self@.ballots.requests[i]).1,
    {
        self.ballot_handler.get_all_requests()
    }

    /// Whether `voter_id` has voted on a request.
    pub fn is_voting(&self, voter_id: String, request_id: RequestId) -> (voted: bool)
        ensures
            voted == has_voted(self@.ballots.votes_on(request_id), voter_id@),
    {
        self.ballot_handler.is_vote(request_id, voter_id)
    }

    /// Opens the exchange: `owner_id` may register assets, and holds the
    /// whole supply of the quote asset.
    pub fn new(owner_id: String) -> (made: Result<Self, LedgerError>)
        ensures
            match made {
                Ok(contract) => {
                    &&& contract.wf()
                    &&& contract@.quote_asset@ == STANDARD_TOKEN@
                    &&& contract@ == ExchangeState::opened(
                        owner_id,
                        contract@.quote_asset,
                    ).registered(
                        Token {
                            token_id: contract@.quote_asset,
                            owner_id,
                            supply: STANDARD_SUPPLY,
                            meta: None,
                            launched: false,
                            launched_time: 0,
                        },
                    )
                },
                Err(reason) => reason == LedgerError::NoHost,
            },
    {
        let mut contract = Self::empty(owner_id.clone());
        let quote_asset = contract.get_standard_token();
        match contract.register(
            Token {
                token_id: quote_asset,
                owner_id,
                supply: STANDARD_SUPPLY,
                meta: None,
                launched: false,
                launched_time: 0,
            },
        ) {
            Ok(()) => Ok(contract),
            Err(reason) => Err(reason),
        }
    }

    /// Registers `token` without asking who calls.
    fn register(&mut self, token: Token) -> (result: Result<(), LedgerError>)
        requires
            old(self).wf(),
        ensures
            final(self).wf(),
            match result {
                Ok(()) => final(self)@ == old(self)@.registered(token),
                Err(reason) => reason == LedgerError::NoHost && final(self)@ == old(self)@,
            },
    {
        let owner_hash = match account_hash(&token.owner_id) {
            Some(hash) => hash,
            None => {
                return Err(LedgerError::NoHost);
            },
        };
        self.add_token_at(owner_hash, token);
        Ok(())
    }

    /// Registers `token` for an owner whose wallet is filed under
    /// `owner_hash`, without asking who calls: the supply is credited to
    /// that wallet, and an empty book is opened for the asset.
    pub fn add_token_at(&mut self, owner_hash: Vec<u8>, token: Token)
        requires
            old(self).wf(),
        ensures
            final(self).wf(),
            final(self)@ == old(self)@.registered_at(owner_hash@, token),
    {
        let mut account = self.account_at(&owner_hash, &token.token_id);
        account.balance = token.supply;
        proof {
            lemma_account_wf(self@.wallets, owner_hash@, token.token_id@);
        }
        self.set_account_at(owner_hash, &account, &token.token_id);
        let orderbook = Orderbook::new(token.token_id.clone(), self.quote_asset.clone());
        proof {
            lemma_put(self@.order_books, token.token_id@, orderbook@, token.token_id@);
            lemma_books_put(self@.order_books, token.token_id@, orderbook@);
        }
        self.order_books.put(token.token_id.clone(), orderbook);
        self.tokens.put(token.token_id.clone(), token);
    }

    /// Registers `token` for `caller`, credits its supply to its owner and
    /// opens its book. Only the owner of the exchange may do so.
    pub fn add_token(&mut self, caller: &String, token: Token) -> (result: Result<(), LedgerError>)
        requires
            old(self).wf(),
        ensures
            final(self).wf(),
            unanswered(result) ==> caller@ == old(self)@.owner_id@ && final(self)@ == old(self)@,
            !unanswered(result) ==> old(self)@.token_added(caller@, token) == (Done {
                state: final(self)@,
                result,
            }),
    {
        if !caller.same(&self.owner_id) {
            return Err(LedgerError::NotOwner);
        }
        match self.register(token) {
            Ok(()) => Ok(()),
            Err(reason) => Err(reason),
        }
    }

    /// A copy of the wallet of `owner_id`.
    pub fn get_wallet(&self, owner_id: &String) -> (wallet: Result<TokenWallet, LedgerError>)
        ensures
            match wallet {
                Ok(found) => found@ == wallet_of(self@.wallets, principal_hash(owner_id@)),
                Err(reason) => reason == LedgerError::NoHost,
            },
    {
        match account_hash(owner_id) {
            Some(owner_hash) => Ok(self.wallet_at(&owner_hash)),
            None => Err(LedgerError::NoHost),
        }
    }

    /// A copy of the account that `owner_id` has of `token_id`.
    pub fn get_account(&self, owner_id: &String, token_id: &String) -> (account: Result<
        TokenAccount,
        LedgerError,
    >)
        ensures
            match account {
                Ok(found) => found@ == account_of(
                    self@.wallets,
                    principal_hash(owner_id@),
                    token_id@,
                ),
                Err(reason) => reason == LedgerError::NoHost,
            },
    {
        match account_hash(owner_id) {
            Some(owner_hash) => Ok(self.account_at(&owner_hash, token_id)),
            None => Err(LedgerError::NoHost),
        }
    }

    /// What `owner_id` holds of `token_id`.
    pub fn get_balance(&self, owner_id: String, token_id: String) -> (balance: Result<
        u128,
        LedgerError,
    >)
        ensures
            match balance {
                Ok(held) => held == balance_of(self@.wallets, principal_hash(owner_id@), token_id@),
                Err(reason) => reason == LedgerError::NoHost,
            },
    {
        match account_hash(&owner_id) {
            Some(owner_hash) => Ok(self.account_at(&owner_hash, &token_id).balance),
            None => Err(LedgerError::NoHost),
        }
    }

    /// What `owner_id` holds of each of the given assets, in the order
    /// given.
    pub fn get_balances(&self, owner_id: String, token_ids: Vec<String>) -> (balances: Result<
        Vec<(String, u128)>,
        LedgerError,
    >)
        ensures
            match balances {
                Ok(held) => {
                    &&& held@.len() == token_ids@.len()
                    &&& forall|i: int|
                        0 <= i < token_ids@.len() ==> (#[trigger] held@[i]).0 == token_ids@[i]
                            && held@[i].1 == balance_of(
                            self@.wallets,
                            principal_hash(owner_id@),
                            token_ids@[i]@,
                        )
                },
                Err(reason) => reason == LedgerError::NoHost,
            },
    {
        match account_hash(&owner_id) {
            Some(owner_hash) => Ok(self.wallet_at(&owner_hash).get_balances(token_ids)),
            None => Err(LedgerError::NoHost),
        }
    }

    /// What `escrow_account_id` may draw of `token_id` from the account of
    /// `owner_id`.
    pub fn get_allowance(
        &self,
        owner_id: String,
        escrow_account_id: String,
        token_id: String,
    ) -> (allowance: Result<u128, LedgerError>)
        ensures
            match allowance {
                Ok(amount) => amount == allowance_of(
                    self@.wallets,
                    principal_hash(owner_id@),
                    token_id@,
                    principal_hash(escrow_account_id@),
                ),
                Err(reason) => reason == LedgerError::NoHost,
            },
    {
        match account_hash(&owner_id) {
            Some(owner_hash) => self.account_at(&owner_hash, &token_id).get_allowance(
                &escrow_account_id,
            ),
            None => Err(LedgerError::NoHost),
        }
    }

    /// Lets `escrow_account_id` draw up to `allowance` of `token_id` from the
    /// account of `owner_id`, who makes the call. Nobody can set an allowance
    /// for itself.
    pub fn set_allowance(
        &mut self,
        owner_id: &String,
        escrow_account_id: &String,
        token_id: &String,
        allowance: u128,
    ) -> (result: Result<(), LedgerError>)
        requires
            old(self).wf(),
        ensures
            final(self).wf(),
            unanswered(result) ==> escrow_account_id@ != owner_id@ && final(self)@ == old(self)@,
            !unanswered(result) ==> old(self)@.allowance_set(
                owner_id@,
                escrow_account_id@,
                token_id@,
                allowance,
            ) == (Done { state: final(self)@, result }),
    {
        if escrow_account_id.same(owner_id) {
            return Err(LedgerError::SelfAllowance);
        }
        let owner_hash = match account_hash(owner_id) {
            Some(hash) => hash,
            None => {
                return Err(LedgerError::NoHost);
            },
        };
        let escrow_hash = match account_hash(escrow_account_id) {
            Some(hash) => hash,
            None => {
                return Err(LedgerError::NoHost);
            },
        };
        self.set_allowance_between(owner_hash, escrow_hash, token_id, allowance);
        Ok(())
    }

    /// Lets the principal filed under `escrow` draw up to `allowance` of
    /// `token_id` from the account filed under `owner`.
    pub fn set_allowance_between(
        &mut self,
        owner: Vec<u8>,
        escrow: Vec<u8>,
        token_id: &String,
        allowance: u128,
    )
        requires
            old(self).wf(),
        ensures
            final(self).wf(),
            final(self)@ == old(self)@.allowed_between(owner@, escrow@, token_id@, allowance),
    {
        let mut account = self.account_at(&owner, token_id);
        proof {
            lemma_account_wf(self@.wallets, owner@, token_id@);
        }
        account.set_allowance_for(escrow, allowance);
        self.set_account_at(owner, &account, token_id);
    }

    /// Moves `amount` of `token_id` from `owner_id` to `new_owner_id` for
    /// `caller`. The amount has to be positive and the owner has to hold it.
    /// A caller that is not the owner needs an allowance of at least the
    /// amount on the owner's account, which goes down by the amount. A
    /// transfer of nothing is refused before the host is asked for a key.
    pub fn transfer_from(
        &mut self,
        caller: &String,
        owner_id: &String,
        new_owner_id: &String,
        token_id: &String,
        amount: u128,
    ) -> (result: Result<(), LedgerError>)
        requires
            old(self).wf(),
        ensures
            final(self).wf(),
            unanswered(result) ==> amount > 0 && final(self)@ == old(self)@,
            !unanswered(result) ==> old(self)@.transfer_done(
                caller@,
                owner_id@,
                new_owner_id@,
                token_id@,
                amount,
            ) == (Done { state: final(self)@, result }),
    {
        if amount == 0 {
            return Err(LedgerError::ZeroTransfer);
        }
        let escrow = if caller.same(owner_id) {
            None
        } else {
            match account_hash(caller) {
                Some(hash) => Some(hash),
                None => {
                    return Err(LedgerError::NoHost);
                },
            }
        };
        let owner = match account_hash(owner_id) {
            Some(hash) => hash,
            None => {
                return Err(LedgerError::NoHost);
            },
        };
        let recipient = match account_hash(new_owner_id) {
            Some(hash) => hash,
            None => {
                return Err(LedgerError::NoHost);
            },
        };
        self.transfer_between(escrow, owner, recipient, token_id, amount)
    }

    /// Moves `amount` of `token_id` from `caller` to `new_owner_id`.
    pub fn transfer(
        &mut self,
        caller: &String,
        new_owner_id: &String,
        token_id: &String,
        amount: u128,
    ) -> (result: Result<(), LedgerError>)
        requires
            old(self).wf(),
        ensures
            final(self).wf(),
            unanswered(result) ==> amount > 0 && final(self)@ == old(self)@,
            !unanswered(result) ==> old(self)@.transfer_done(
                caller@,
                caller@,
                new_owner_id@,
                token_id@,
                amount,
            ) == (Done { state: final(self)@, result }),
    {
        self.transfer_from(caller, caller, new_owner_id, token_id, amount)
    }

    /// Pays `amount` times the standard price in the quote asset from the
    /// owner of the exchange to `to`, for `amount` units of the host's own
    /// currency that `caller` sends along.
    pub fn pay_standard_token(&mut self, caller: &String, amount: u128, to: &String) -> (result:
        Result<(), LedgerError>)
        requires
            old(self).wf(),
        ensures
            final(self).wf(),
            unanswered(result) ==> 0 < STANDARD_PRICE * amount <= u128::MAX && final(self)@ == old(
                self,
            )@,
            !unanswered(result) ==> old(self)@.standard_token_paid(caller@, amount, to@) == (Done {
                state: final(self)@,
                result,
            }),
    {
        match STANDARD_PRICE.checked_mul(amount) {
            Some(total) => {
                let owner_id = self.owner_id.clone();
                let quote = self.quote_asset.clone();
                self.transfer_from(caller, &owner_id, to, &quote, total)
            },
            None => Err(LedgerError::AmountOverflow),
        }
    }

    /// Places a limit ask of the signer.
    pub fn new_ask_limit_order(
        &mut self,
        context: &CallContext,
        token_id: String,
        price: u128,
        quantity: u128,
    ) -> (result: Result<OrderProcessingResult, LedgerError>)
        requires
            old(self).wf(),
        ensures
            final(self).wf(),
            unanswered(result) ==> order_asks(old(self)@, *context, token_id, Some(price), quantity, "Ask"@)
                && final(self)@ == old(self)@,
            !unanswered(result) ==> order_done(
                old(self)@,
                *context,
                token_id,
                Some(price),
                quantity,
                "Ask"@,
                final(self)@,
                events_of(result),
            ),
    {
        self.new_limit_order(context, token_id, price, quantity, "Ask".to_string())
    }

    /// Places a limit bid of the signer.
    pub fn new_bid_limit_order(
        &mut self,
        context: &CallContext,
        token_id: String,
        price: u128,
        quantity: u128,
    ) -> (result: Result<OrderProcessingResult, LedgerError>)
        requires
            old(self).wf(),
        ensures
            final(self).wf(),
            unanswered(result) ==> order_asks(old(self)@, *context, token_id, Some(price), quantity, "Bid"@)
                && final(self)@ == old(self)@,
            !unanswered(result) ==> order_done(
                old(self)@,
                *context,
                token_id,
                Some(price),
                quantity,
                "Bid"@,
                final(self)@,
                events_of(result),
            ),
    {
        self.new_limit_order(context, token_id, price, quantity, "Bid".to_string())
    }

    /// Places a limit order of the signer: `side` is `Ask` to sell and `Bid`
    /// to buy `quantity` of `token_id` at `price` ticks or better. What the
    /// order may cost is put in escrow with the exchange first.
    pub fn new_limit_order(
        &mut self,
        context: &CallContext,
        token_id: String,
        price: u128,
        quantity: u128,
        side: String,
    ) -> (result: Result<OrderProcessingResult, LedgerError>)
        requires
            old(self).wf(),
        ensures
            final(self).wf(),
            unanswered(result) ==> order_asks(old(self)@, *context, token_id, Some(price), quantity, side@)
                && final(self)@ == old(self)@,
            !unanswered(result) ==> order_done(
                old(self)@,
                *context,
                token_id,
                Some(price),
                quantity,
                side@,
                final(self)@,
                events_of(result),
            ),
    {
        let side = match Self::parse_side(&side) {
            Some(parsed) => parsed,
            None => {
                return Err(LedgerError::BadSide);
            },
        };
        let fallback = self.wallets.replica();
        let token = match side {
            OrderSide::Bid => self.get_standard_token(),
            OrderSide::Ask => token_id.clone(),
        };
        let amount = match side {
            OrderSide::Bid => match Self::cost(price, quantity) {
                Some(amount) => amount,
                None => {
                    return Err(LedgerError::AmountOverflow);
                },
            },
            OrderSide::Ask => quantity,
        };
        if let Err(reason) = self.transfer_from(
            &context.predecessor,
            &context.signer,
            &context.current,
            &token,
            amount,
        ) {
            return Err(reason);
        }
        let order = new_limit_order_request(
            token_id.clone(),
            self.get_standard_token(),
            side,
            price,
            quantity,
            context.signer.clone(),
            context.now,
        );
        self.post_transfer(context, &token_id, order, fallback)
    }

    /// Places a market order of the signer: `side` is `Ask` to sell and
    /// `Bid` to buy `quantity` of `token_id` at the prices of the book. What
    /// an ask sells is put in escrow with the exchange first; what a bid
    /// costs is drawn from the signer as it is filled.
    pub fn new_market_order(
        &mut self,
        context: &CallContext,
        token_id: String,
        quantity: u128,
        side: String,
    ) -> (result: Result<OrderProcessingResult, LedgerError>)
        requires
            old(self).wf(),
        ensures
            final(self).wf(),
            unanswered(result) ==> order_asks(old(self)@, *context, token_id, None, quantity, side@)
                && final(self)@ == old(self)@,
            !unanswered(result) ==> order_done(
                old(self)@,
                *context,
                token_id,
                None,
                quantity,
                side@,
                final(self)@,
                events_of(result),
            ),
    {
        let side = match Self::parse_side(&side) {
            Some(parsed) => parsed,
            None => {
                return Err(LedgerError::BadSide);
            },
        };
        let fallback = self.wallets.replica();
        match side {
            OrderSide::Ask => {
                if let Err(reason) = self.transfer_from(
                    &context.predecessor,
                    &context.signer,
                    &context.current,
                    &token_id,
                    quantity,
                ) {
                    return Err(reason);
                }
            },
            OrderSide::Bid => {},
        }
        let order = new_market_order_request(
            token_id.clone(),
            self.get_standard_token(),
            side,
            quantity,
            context.signer.clone(),
            context.now,
        );
        self.post_transfer(context, &token_id, order, fallback)
    }

    /// Cancels the resting order `id` of one side of the book of `token_id`.
    pub fn cancel_limit_order(
        &mut self,
        context: &CallContext,
        token_id: String,
        id: u64,
        side: String,
    ) -> (result: Result<OrderProcessingResult, LedgerError>)
        requires
            old(self).wf(),
        ensures
            final(self).wf(),
            cancel_done(
                old(self)@,
                context.now,
                token_id@,
                id,
                side@,
                final(self)@,
                events_of(result),
            ),
    {
        let side = match Self::parse_side(&side) {
            Some(parsed) => parsed,
            None => {
                return Err(LedgerError::BadSide);
            },
        };
        let order = limit_order_cancel_request(id, side);
        let fallback = self.wallets.replica();
        proof {
            if let Some(book) = self@.book_of(token_id@) {
                let events = book.processed(order, context.now).events;
                assert(events.len() == 1);
                assert(!is_fill(events[0]));
                lemma_nothing_to_settle(
                    self@.wallets,
                    context.current@,
                    token_id@,
                    self@.quote_asset@,
                    events,
                );
            }
        }
        self.post_transfer(context, &token_id, order, fallback)
    }

    /// Settles one fill on the ledger between keys: `bank` is the key under
    /// which the wallet of the exchange is filed. Only the ledger changes;
    /// a transfer that is refused ends the settlement and leaves the ledger
    /// as it found it.
    pub fn settle_fill(&mut self, bank: &Vec<u8>, token_id: &String, fill: &Fill) -> (result: Result<
        (),
        LedgerError,
    >)
        requires
            old(self).wf(),
        ensures
            final(self).wf(),
            final(self)@ == old(self)@.with_wallets(
                fill_paid(
                    old(self)@.wallets,
                    bank@,
                    token_id@,
                    old(self)@.quote_asset@,
                    fill@,
                ).ledger,
            ),
            result == (match fill_paid(
                old(self)@.wallets,
                bank@,
                token_id@,
                old(self)@.quote_asset@,
                fill@,
            ).failure {
                Some(reason) => Err::<(), LedgerError>(reason),
                None => Ok(()),
            }),
    {
        let quote = self.get_standard_token();
        match fill.side {
            OrderSide::Ask => match Self::cost(fill.price, fill.qty) {
                Some(amount) => self.transfer_between(
                    None,
                    bank.replica(),
                    fill.trader.replica(),
                    &quote,
                    amount,
                ),
                None => Err(LedgerError::AmountOverflow),
            },
            OrderSide::Bid => match fill.order_type {
                OrderType::Limit => self.transfer_between(
                    None,
                    bank.replica(),
                    fill.trader.replica(),
                    token_id,
                    fill.qty,
                ),
                OrderType::Market => match Self::cost(fill.price, fill.qty) {
                    Some(amount) => {
                        let drawn = if fill.own {
                            None
                        } else {
                            Some(bank.replica())
                        };
                        match self.transfer_between(
                            drawn,
                            fill.trader.replica(),
                            bank.replica(),
                            &quote,
                            amount,
                        ) {
                            Ok(()) => self.transfer_between(
                                None,
                                bank.replica(),
                                fill.trader.replica(),
                                token_id,
                                fill.qty,
                            ),
                            Err(reason) => Err(reason),
                        }
                    },
                    None => Err(LedgerError::AmountOverflow),
                },
            },
        }
    }

    /// Settles fills on the ledger between keys, one after the other, up to
    /// the first transfer that is refused. Only the ledger changes, and
    /// what was paid before a refusal stays paid.
    pub fn settle_fills(&mut self, bank: &Vec<u8>, token_id: &String, fills: &Vec<Fill>) -> (result:
        Result<(), LedgerError>)
        requires
            old(self).wf(),
        ensures
            final(self).wf(),
            final(self)@ == old(self)@.with_wallets(
                fills_paid(
                    old(self)@.wallets,
                    bank@,
                    token_id@,
                    old(self)@.quote_asset@,
                    viewed(fills@),
                ).ledger,
            ),
            result == (match fills_paid(
                old(self)@.wallets,
                bank@,
                token_id@,
                old(self)@.quote_asset@,
                viewed(fills@),
            ).failure {
                Some(reason) => Err::<(), LedgerError>(reason),
                None => Ok(()),
            }),
    {
        let ghost quote = self@.quote_asset@;
        let ghost all = viewed(fills@);
        let mut i: usize = 0;
        proof {
            assert(all.skip(0) =~= all);
        }
        while i < fills.len()
            invariant
                i <= fills@.len(),
                all == viewed(fills@),
                self.wf(),
                self@ == old(self)@.with_wallets(self@.wallets),
                quote == old(self)@.quote_asset@,
                fills_paid(old(self)@.wallets, bank@, token_id@, quote, all) == fills_paid(
                    self@.wallets,
                    bank@,
                    token_id@,
                    quote,
                    all.skip(i as int),
                ),
            decreases fills@.len() - i,
        {
            proof {
                assert(all.skip(i as int).skip(1) =~= all.skip(i + 1));
                assert(all.skip(i as int)[0] == fills@[i as int]@);
            }
            if let Err(reason) = self.settle_fill(bank, token_id, &fills[i]) {
                return Err(reason);
            }
            i = i + 1;
        }
        Ok(())
    }

    /// Settles the events of the book of `token_id` on the ledger. The
    /// creators of the fills are looked up first; where the host does not
    /// answer, nothing is settled. The fills are then paid one after the
    /// other, up to the first transfer that is refused. Only the ledger
    /// changes, and the sum of what all wallets hold of an asset stays what
    /// it was. Events without a fill are settled without the host.
    pub fn process_orderbook_result(
        &mut self,
        context: &CallContext,
        token_id: &String,
        order: &OrderProcessingResult,
    ) -> (result: Result<(), LedgerError>)
        requires
            old(self).wf(),
        ensures
            final(self).wf(),
            forall|any_token: Seq<char>| #[trigger]
                total_balance(final(self)@.wallets, any_token) == total_balance(
                    old(self)@.wallets,
                    any_token,
                ),
            !has_fill(order@) ==> result == Ok::<(), LedgerError>(()) && final(self)@ == old(self)@,
            unanswered(result) ==> has_fill(order@) && final(self)@ == old(self)@,
            !unanswered(result) ==> final(self)@ == old(self)@.with_wallets(
                settled(
                    old(self)@.wallets,
                    context.current@,
                    token_id@,
                    old(self)@.quote_asset@,
                    order@,
                ).ledger,
            ) && result == (match settled(
                old(self)@.wallets,
                context.current@,
                token_id@,
                old(self)@.quote_asset@,
                order@,
            ).failure {
                Some(reason) => Err::<(), LedgerError>(reason),
                None => Ok(()),
            }),
    {
        proof {
            lemma_fills_of_some(context.current@, order@);
            lemma_settlement_needs_no_host(
                self@.wallets,
                principal_hash(context.current@),
                token_id@,
                self@.quote_asset@,
                fills_of(context.current@, order@),
            );
            assert forall|any_token: Seq<char>|
                total_balance(
                    settled(
                        self@.wallets,
                        context.current@,
                        token_id@,
                        self@.quote_asset@,
                        order@,
                    ).ledger,
                    any_token,
                ) == #[trigger] total_balance(self@.wallets, any_token) by {
                lemma_settlement_conserves(
                    self@.wallets,
                    context.current@,
                    token_id@,
                    self@.quote_asset@,
                    order@,
                    any_token,
                );
            }
        }
        let fills = match keyed_fills(&context.current, order) {
            Some(found) => found,
            None => {
                return Err(LedgerError::NoHost);
            },
        };
        if fills.len() == 0 {
            return Ok(());
        }
        let bank = match account_hash(&context.current) {
            Some(hash) => hash,
            None => {
                return Err(LedgerError::NoHost);
            },
        };
        self.settle_fills(&bank, token_id, &fills)
    }

    /// Stakes `amount` of the quote asset of `staker` at time `now`: it goes
    /// to the owner of the exchange. An account can have one stake at a
    /// time.
    pub fn stake(&mut self, staker: &String, now: u64, amount: u128) -> (result: Result<
        (),
        LedgerError,
    >)
        requires
            old(self).wf(),
        ensures
            final(self).wf(),
            unanswered(result) ==> final(self)@ == old(self)@,
            !unanswered(result) ==> old(self)@.stake_done(staker@, now, amount) == (Done {
                state: final(self)@,
                result,
            }),
    {
        let staker_hash = match account_hash(staker) {
            Some(hash) => hash,
            None => {
                return Err(LedgerError::NoHost);
            },
        };
        let owner_hash = match account_hash(&self.owner_id) {
            Some(hash) => hash,
            None => {
                return Err(LedgerError::NoHost);
            },
        };
        self.stake_between(staker_hash, owner_hash, now, amount)
    }

    /// Stakes `amount` of the quote asset between keys at time `now`: it
    /// goes from the account filed under `staker` to the one filed under
    /// `owner`. An account can have one stake at a time.
    pub fn stake_between(&mut self, staker: Vec<u8>, owner: Vec<u8>, now: u64, amount: u128) -> (result:
        Result<(), LedgerError>)
        requires
            old(self).wf(),
        ensures
            final(self).wf(),
            old(self)@.staked_between(staker@, owner@, now, amount) == (Done {
                state: final(self)@,
                result,
            }),
    {
        let staked = match self.staking.get(&staker) {
            Some(stake) => stake.staked,
            None => 0,
        };
        if staked != 0 {
            return Err(LedgerError::AlreadyStaked);
        }
        let quote = self.quote_asset.clone();
        match self.transfer_between(None, staker.replica(), owner, &quote, amount) {
            Ok(()) => {
                self.staking.put(staker, StakeInfo { staked: amount, created_time: now });
                Ok(())
            },
            Err(reason) => Err(reason),
        }
    }

    /// What `owner_id` has staked and since when; nothing, as of `now`, for
    /// an account without a stake.
    pub fn get_staking(&self, owner_id: &String, now: u64) -> (stake: Result<StakeInfo, LedgerError>)
        ensures
            match stake {
                Ok(found) => found == (match lookup(self@.staking, principal_hash(owner_id@)) {
                    Some(filed) => filed,
                    None => StakeInfo { staked: 0, created_time: now },
                }),
                Err(reason) => reason == LedgerError::NoHost,
            },
    {
        match account_hash(owner_id) {
            Some(owner_hash) => match self.staking.get(&owner_hash) {
                Some(stake) => Ok(*stake),
                None => Ok(StakeInfo { staked: 0, created_time: now }),
            },
            None => Err(LedgerError::NoHost),
        }
    }

    /// Ends the stake of `staker`: the owner of the exchange pays `payout`
    /// of the quote asset to `staker`.
    pub fn unstake(&mut self, staker: &String, payout: u128) -> (result: Result<(), LedgerError>)
        requires
            old(self).wf(),
        ensures
            final(self).wf(),
            unanswered(result) ==> final(self)@ == old(self)@,
            !unanswered(result) ==> old(self)@.unstake_done(staker@, payout) == (Done {
                state: final(self)@,
                result,
            }),
    {
        let staker_hash = match account_hash(staker) {
            Some(hash) => hash,
            None => {
                return Err(LedgerError::NoHost);
            },
        };
        let owner_hash = match account_hash(&self.owner_id) {
            Some(hash) => hash,
            None => {
                return Err(LedgerError::NoHost);
            },
        };
        self.unstake_between(staker_hash, owner_hash, payout)
    }

    /// Ends a stake between keys: the account filed under `owner` pays
    /// `payout` of the quote asset to the one filed under `staker`, whose
    /// stake is then gone.
    pub fn unstake_between(&mut self, staker: Vec<u8>, owner: Vec<u8>, payout: u128) -> (result:
        Result<(), LedgerError>)
        requires
            old(self).wf(),
        ensures
            final(self).wf(),
            old(self)@.unstaked_between(staker@, owner@, payout) == (Done {
                state: final(self)@,
                result,
            }),
    {
        let staked = match self.staking.get(&staker) {
            Some(stake) => stake.staked,
            None => 0,
        };
        if staked == 0 {
            return Err(LedgerError::NothingStaked);
        }
        let quote = self.quote_asset.clone();
        match self.transfer_between(None, owner, staker.replica(), &quote, payout) {
            Ok(()) => {
                self.staking.delete(&staker);
                Ok(())
            },
            Err(reason) => Err(reason),
        }
    }

    /// Files a request of `owner` to list a new asset at time `now`, unless
    /// it asks for an asset that is registered.
    pub fn add_new_request(&mut self, owner: String, now: u64, request: UserRequest) -> (result:
        Result<(), LedgerError>)
        requires
            old(self).wf(),
        ensures
            final(self).wf(),
            old(self)@.request_filed(owner, now, request) == (Done { state: final(self)@, result }),
    {
        if self.tokens.get(&request.token_id).is_some() {
            return Err(LedgerError::TokenExists);
        }
        self.ballot_handler.add_new_request(owner, now, request);
        Ok(())
    }

    /// Casts the vote of `voter` on a request at time `now`. Only an account
    /// with a stake can vote, once, and within a day of the request.
    pub fn vote(&mut self, voter: String, now: u64, request_id: RequestId, vote: bool) -> (result:
        Result<(), LedgerError>)
        requires
            old(self).wf(),
        ensures
            final(self).wf(),
            unanswered(result) ==> old(self)@.vote_asks(now, request_id) && final(self)@ == old(
                self,
            )@,
            !unanswered(result) ==> old(self)@.vote_done(voter, now, request_id, vote) == (Done {
                state: final(self)@,
                result,
            }),
    {
        match self.ballot_handler.get_request(request_id) {
            None => {
                return Err(LedgerError::NoSuchRequest);
            },
            Some(req) => {
                if (req.created_time as u128) + (VOTING_TIME as u128) < (now as u128) {
                    return Err(LedgerError::VotingEnded);
                }
            },
        }
        let key = match account_hash(&voter) {
            Some(hash) => hash,
            None => {
                return Err(LedgerError::NoHost);
            },
        };
        self.vote_at(voter, &key, now, request_id, vote)
    }

    /// Casts the vote of `voter`, whose stake is filed under `key`, on a
    /// request at time `now`.
    pub fn vote_at(
        &mut self,
        voter: String,
        key: &Vec<u8>,
        now: u64,
        request_id: RequestId,
        vote: bool,
    ) -> (result: Result<(), LedgerError>)
        requires
            old(self).wf(),
        ensures
            final(self).wf(),
            old(self)@.vote_done_at(voter, key@, now, request_id, vote) == (Done {
                state: final(self)@,
                result,
            }),
    {
        match self.ballot_handler.get_request(request_id) {
            None => {
                return Err(LedgerError::NoSuchRequest);
            },
            Some(req) => {
                if (req.created_time as u128) + (VOTING_TIME as u128) < (now as u128) {
                    return Err(LedgerError::VotingEnded);
                }
            },
        }
        let staked = match self.staking.get(key) {
            Some(stake) => stake.staked,
            None => 0,
        };
        if staked == 0 {
            return Err(LedgerError::NothingStaked);
        }
        if self.is_voting(voter.clone(), request_id) {
            return Err(LedgerError::AlreadyVoted);
        }
        self.ballot_handler.vote(voter, request_id, vote);
        Ok(())
    }

    /// Closes the vote on a request at time `now`. Fails where there is no
    /// such request or the time to vote on it is not over.
    pub fn finalize(&mut self, now: u64, request_id: RequestId) -> (result: Result<(), LedgerError>)
        requires
            old(self).wf(),
        ensures
            final(self).wf(),
            final(self)@ == old(self)@,
            result == (match old(self)@.finalize_refusal(now, request_id) {
                Some(reason) => Err::<(), LedgerError>(reason),
                None => Ok(()),
            }),
    {
        match self.ballot_handler.get_request(request_id) {
            None => Err(LedgerError::NoSuchRequest),
            Some(req) => {
                if (req.created_time as u128) + (VOTING_TIME as u128) > (now as u128) {
                    Err(LedgerError::VotingNotOver)
                } else {
                    Ok(())
                }
            },
        }
    }

    /// The resting asks of the book of `token_id`, in the order in which
    /// they are served.
    pub fn get_ask_orders(&self, token_id: String) -> (orders: Result<Vec<Order>, LedgerError>)
        ensures
            match orders {
                Ok(asks) => self@.book_of(token_id@) is Some && asks@ == self@.book_of(
                    token_id@,
                )->0.asks.resting(),
                Err(reason) => self@.book_of(token_id@) is None && reason
                    == LedgerError::UnknownToken,
            },
    {
        proof {
            lemma_position(self@.order_books, token_id@);
        }
        match self.order_books.get(&token_id) {
            Some(book) => Ok(book.get_side_orders(OrderSide::Ask)),
            None => Err(LedgerError::UnknownToken),
        }
    }

    /// The resting bids of the book of `token_id`, in the order in which
    /// they are served.
    pub fn get_bid_orders(&self, token_id: String) -> (orders: Result<Vec<Order>, LedgerError>)
        ensures
            match orders {
                Ok(bids) => self@.book_of(token_id@) is Some && bids@ == self@.book_of(
                    token_id@,
                )->0.bids.resting(),
                Err(reason) => self@.book_of(token_id@) is None && reason
                    == LedgerError::UnknownToken,
            },
    {
        proof {
            lemma_position(self@.order_books, token_id@);
        }
        match self.order_books.get(&token_id) {
            Some(book) => Ok(book.get_side_orders(OrderSide::Bid)),
            None => Err(LedgerError::UnknownToken),
        }
    }

    /// The resting orders of one side of the book of `token_id` that
    /// `account_id` placed, in the order in which they are served.
    pub fn get_orders(&self, account_id: String, token_id: String, side: String) -> (orders: Result<
        Vec<Order>,
        LedgerError,
    >)
        ensures
            match orders {
                Ok(found) => {
                    &&& side_named(side@) is Some
                    &&& self@.book_of(token_id@) is Some
                    &&& found@ == self@.book_of(token_id@)->0.queue(
                        side_named(side@)->0,
                    ).resting().filter(crate::orderbook::created_by(account_id@))
                },
                Err(reason) => reason == (if side_named(side@) is None {
                    LedgerError::BadSide
                } else {
                    LedgerError::UnknownToken
                }) && (side_named(side@) is None || self@.book_of(token_id@) is None),
            },
    {
        let side = match Self::parse_side(&side) {
            Some(parsed) => parsed,
            None => {
                return Err(LedgerError::BadSide);
            },
        };
        proof {
            lemma_position(self@.order_books, token_id@);
        }
        match self.order_books.get(&token_id) {
            Some(book) => Ok(book.get_orders(account_id, side)),
            None => Err(LedgerError::UnknownToken),
        }
    }

    /// The best bid and the best ask of the book of `token_id`, in this
    /// order; two zeros unless both sides hold an order.
    pub fn get_current_spread(&self, token_id: String) -> (spread: Result<Vec<u128>, LedgerError>)
        ensures
            match spread {
                Ok(prices) => {
                    &&& self@.book_of(token_id@) is Some
                    &&& prices@ == match self@.book_of(token_id@)->0.spread() {
                        Some((bid, ask)) => seq![bid, ask],
                        None => seq![0u128, 0u128],
                    }
                },
                Err(reason) => self@.book_of(token_id@) is None && reason
                    == LedgerError::UnknownToken,
            },
    {
        proof {
            lemma_position(self@.order_books, token_id@);
        }
        match self.order_books.get(&token_id) {
            Some(book) => {
                let mut prices: Vec<u128> = Vec::new();
                match book.best_prices() {
                    Some((bid, ask)) => {
                        prices.push(bid);
                        prices.push(ask);
                        assert(prices@ =~= seq![bid, ask]);
                    },
                    None => {
                        prices.push(0);
                        prices.push(0);
                        assert(prices@ =~= seq![0u128, 0u128]);
                    },
                }
                Ok(prices)
            },
            None => Err(LedgerError::UnknownToken),
        }
    }
}

/// An order conserves every asset: whether it is placed or fails, and
/// whatever is put in escrow and paid out for it, the sum of what all
/// wallets hold of a token is afterwards what it was before. An order that
/// fails leaves the exchange as it was.
pub proof fn lemma_order_conserves(
    before: ExchangeState,
    context: CallContext,
    token_id: String,
    price: Option<u128>,
    quantity: u128,
    side: Seq<char>,
    after: ExchangeState,
    result: Result<Seq<Result<Success, Failed>>, LedgerError>,
    any_token: Seq<char>,
)
    requires
        order_done(before, context, token_id, price, quantity, side, after, result),
    ensures
        total_balance(after.wallets, any_token) == total_balance(before.wallets, any_token),
        result is Err ==> after == before,
{
    if let Some(parsed) = side_named(side) {
        if let Some((asset, amount)) = escrow_of(
            before.quote_asset@,
            token_id@,
            parsed,
            price,
            quantity,
        ) {
            let reserved = price is Some || parsed == OrderSide::Ask;
            let escrow = drawing(context.predecessor@, context.signer@);
            let owner = principal_hash(context.signer@);
            let bank = principal_hash(context.current@);
            let refusal = if reserved {
                transfer_refusal(before.wallets, escrow, owner, bank, asset, amount)
            } else {
                None
            };
            if refusal is None && before.book_of(token_id@) is Some {
                let start = if reserved {
                    before.with_wallets(
                        transferred(before.wallets, escrow, owner, bank, asset, amount),
                    )
                } else {
                    before
                };
                if reserved {
                    lemma_transfer_conserves(
                        before.wallets,
                        escrow,
                        owner,
                        bank,
                        asset,
                        amount,
                        any_token,
                    );
                }
                let book = start.book_of(token_id@)->0;
                let request = new_order(
                    before.quote_asset,
                    context,
                    token_id,
                    parsed,
                    price,
                    quantity,
                );
                if book.refusal(request) is None {
                    let worked = book.processed(request, context.now);
                    lemma_settlement_conserves(
                        start.with_book(token_id@, worked.book).wallets,
                        context.current@,
                        token_id@,
                        before.quote_asset@,
                        worked.events,
                        any_token,
                    );
                }
                assert(start.with_wallets(before.wallets) == before);
            }
        }
    }
}

/// A market bid that its book does not refuse and that finds no ask there
/// needs no host and moves nothing: it puts nothing in escrow, is accepted,
/// and reports that nothing matched.
pub proof fn lemma_market_bid_without_asks(
    before: ExchangeState,
    context: CallContext,
    token_id: String,
    quantity: u128,
    after: ExchangeState,
    result: Result<Seq<Result<Success, Failed>>, LedgerError>,
)
    requires
        before.book_of(token_id@) is Some,
        before.book_of(token_id@)->0.asks.top() is None,
        before.book_of(token_id@)->0.refusal(
            new_order(before.quote_asset, context, token_id, OrderSide::Bid, None, quantity),
        ) is None,
    ensures
        !order_asks(before, context, token_id, None, quantity, "Bid"@),
        order_done(before, context, token_id, None, quantity, "Bid"@, after, result) ==> {
            &&& after.wallets == before.wallets
            &&& result matches Ok(events)
            &&& events.len() == 2
            &&& events[0] matches Ok(Success::Accepted { .. })
            &&& events[1] == Err::<Success, Failed>(
                Failed::NoMatch(before.book_of(token_id@)->0.next_id),
            )
        },
{
    reveal_strlit("Bid");
    reveal_strlit("Ask");
    let book = before.book_of(token_id@)->0;
    let request = new_order(before.quote_asset, context, token_id, OrderSide::Bid, None, quantity);
    let events = book.processed(request, context.now).events;
    assert("Bid"@[0] != "Ask"@[0]);
    assert(side_named("Bid"@) == Some(OrderSide::Bid));
    assert(book.refusal(request) is None);
    assert(book.advanced().queue(OrderSide::Ask) == book.asks);
    assert(events.len() == 2);
    assert(!is_fill(events[0]));
    assert(!is_fill(events[1]));
    lemma_nothing_to_settle(
        before.with_book(token_id@, book.processed(request, context.now).book).wallets,
        context.current@,
        token_id@,
        before.quote_asset@,
        events,
    );
}

/// A well-formed book that is stored among well-formed books leaves them
/// so, with distinct keys.
pub proof fn lemma_books_put(books: Seq<(Seq<char>, BookState)>, token: Seq<char>, book: BookState)
    requires
        distinct_keys(books),
        forall|i: int| 0 <= i < books.len() ==> (#[trigger] books[i]).1.wf(),
        book.wf(),
    ensures
        distinct_keys(put(books, token, book)),
        forall|i: int|
            0 <= i < put(books, token, book).len() ==> (#[trigger] put(books, token, book)[i]).1.wf(),
{
    let after = put(books, token, book);
    lemma_put(books, token, book, token);
    lemma_position(books, token);
    assert forall|i: int| 0 <= i < after.len() implies (#[trigger] after[i]).1.wf() by {
        if i < books.len() {
            if after[i] != books[i] {
            } else {
                assert(books[i].1.wf());
            }
        }
    }
}

} // verus!
