//! What the fills that a book reports do to the ledger.
//!
//! A fill is paid out of the account of the exchange to the creator of the
//! order: the traded quantity of the base asset for a bid, its price in the
//! quote asset for an ask. For the fill of a market bid the exchange first
//! draws that price from the creator's account. No other event touches the
//! ledger.
//!
//! The ledger files accounts under keys, so a fill is settled in two steps:
//! the creators of the fills are looked up once, and the fills are then paid
//! between keys. The second step needs no host and is stated exactly.

use crate::domain::{OrderSide, OrderType};
use crate::host::{account_hash, principal_hash};
use crate::ledger::{
    lemma_transfer_conserves, moved, quote_amount, total_balance, transfer_refusal, LedgerError,
    LedgerState, Settlement,
};
use crate::orderbook::{Failed, OrderProcessingResult, Success};
use crate::table::TableKey;
use vstd::prelude::*;

verus! {

/// A fill as the ledger sees it: the key of the creator's wallet in the
/// place of the creator's name.
#[derive(Debug)]
pub struct Fill {
    pub side: OrderSide,
    pub order_type: OrderType,
    /// Price of the trade in ticks.
    pub price: u128,
    /// Quantity of the trade.
    pub qty: u128,
    /// The key under which the wallet of the order's creator is filed.
    pub trader: Vec<u8>,
    /// Whether the exchange itself placed the order.
    pub own: bool,
}

/// What a `Fill` stands for.
pub struct FillState {
    pub side: OrderSide,
    pub order_type: OrderType,
    pub price: u128,
    pub qty: u128,
    pub trader: Seq<u8>,
    pub own: bool,
}

impl View for Fill {
    type V = FillState;

    open spec fn view(&self) -> FillState {
        FillState {
            side: self.side,
            order_type: self.order_type,
            price: self.price,
            qty: self.qty,
            trader: self.trader@,
            own: self.own,
        }
    }
}

/// What each fill of a list stands for.
pub open spec fn viewed(fills: Seq<Fill>) -> Seq<FillState> {
    Seq::new(fills.len(), |i: int| fills[i]@)
}

/// The key under which the exchange, filed under `bank`, draws on the
/// account of the creator of an order: none where the order is its own.
pub open spec fn drawn_by(bank: Seq<u8>, fill: FillState) -> Option<Seq<u8>> {
    if fill.own {
        None
    } else {
        Some(bank)
    }
}

/// What one fill does to the ledger, where the wallet of the exchange is
/// filed under `bank`.
pub open spec fn fill_paid(
    ledger: LedgerState,
    bank: Seq<u8>,
    token: Seq<char>,
    quote: Seq<char>,
    fill: FillState,
) -> Settlement {
    match fill.side {
        OrderSide::Ask => match quote_amount(fill.price, fill.qty) {
            Some(amount) => moved(ledger, None, bank, fill.trader, quote, amount),
            None => Settlement { ledger, failure: Some(LedgerError::AmountOverflow) },
        },
        OrderSide::Bid => match fill.order_type {
            OrderType::Limit => moved(ledger, None, bank, fill.trader, token, fill.qty),
            OrderType::Market => match quote_amount(fill.price, fill.qty) {
                Some(amount) => {
                    let paid = moved(
                        ledger,
                        drawn_by(bank, fill),
                        fill.trader,
                        bank,
                        quote,
                        amount,
                    );
                    if paid.failure is Some {
                        paid
                    } else {
                        moved(paid.ledger, None, bank, fill.trader, token, fill.qty)
                    }
                },
                None => Settlement { ledger, failure: Some(LedgerError::AmountOverflow) },
            },
        },
    }
}

/// What a list of fills does to the ledger, one after the other, up to the
/// first transfer that is refused.
pub open spec fn fills_paid(
    ledger: LedgerState,
    bank: Seq<u8>,
    token: Seq<char>,
    quote: Seq<char>,
    fills: Seq<FillState>,
) -> Settlement
    decreases fills.len(),
{
    if fills.len() == 0 {
        Settlement { ledger, failure: None }
    } else {
        let first = fill_paid(ledger, bank, token, quote, fills[0]);
        if first.failure is Some {
            first
        } else {
            fills_paid(first.ledger, bank, token, quote, fills.skip(1))
        }
    }
}

/// The fill that an event reports, if it reports one, as the ledger of
/// `exchange` sees it.
pub open spec fn fill_of(exchange: Seq<char>, event: Result<Success, Failed>) -> Option<FillState> {
    match event {
        Ok(Success::Filled { side, order_type, price, qty, order_creator, .. }) => Some(
            FillState {
                side,
                order_type,
                price,
                qty,
                trader: principal_hash(order_creator@),
                own: order_creator@ == exchange,
            },
        ),
        Ok(Success::PartiallyFilled { side, order_type, price, qty, order_creator, .. }) => Some(
            FillState {
                side,
                order_type,
                price,
                qty,
                trader: principal_hash(order_creator@),
                own: order_creator@ == exchange,
            },
        ),
        _ => None,
    }
}

/// The fills that a list of events reports, in their order.
pub open spec fn fills_of(exchange: Seq<char>, events: Seq<Result<Success, Failed>>) -> Seq<
    FillState,
>
    decreases events.len(),
{
    if events.len() == 0 {
        Seq::empty()
    } else {
        match fill_of(exchange, events[0]) {
            Some(fill) => seq![fill] + fills_of(exchange, events.skip(1)),
            None => fills_of(exchange, events.skip(1)),
        }
    }
}

/// Whether an event reports a fill.
pub open spec fn is_fill(event: Result<Success, Failed>) -> bool {
    match event {
        Ok(Success::Filled { .. }) => true,
        Ok(Success::PartiallyFilled { .. }) => true,
        _ => false,
    }
}

/// Whether some event of a list reports a fill.
pub open spec fn has_fill(events: Seq<Result<Success, Failed>>) -> bool {
    exists|i: int| 0 <= i < events.len() && is_fill(#[trigger] events[i])
}

/// What the events of a book do to the ledger of `exchange`: the fills that
/// they report are paid one after the other, up to the first transfer that
/// is refused.
pub open spec fn settled(
    ledger: LedgerState,
    exchange: Seq<char>,
    token: Seq<char>,
    quote: Seq<char>,
    events: Seq<Result<Success, Failed>>,
) -> Settlement {
    fills_paid(ledger, principal_hash(exchange), token, quote, fills_of(exchange, events))
}

/// Looks up the creator of each fill that `events` report. Fails where the
/// host does not answer, which can only be where there is a fill.
pub fn keyed_fills(exchange_id: &String, events: &OrderProcessingResult) -> (fills: Option<
    Vec<Fill>,
>)
    ensures
        match fills {
            Some(found) => viewed(found@) == fills_of(exchange_id@, events@),
            None => has_fill(events@),
        },
{
    let mut fills: Vec<Fill> = Vec::new();
    let mut i: usize = 0;
    proof {
        assert(events@.skip(0) =~= events@);
        assert(viewed(fills@) + fills_of(exchange_id@, events@) =~= fills_of(
            exchange_id@,
            events@,
        ));
    }
    while i < events.len()
        invariant
            i <= events@.len(),
            fills_of(exchange_id@, events@) == viewed(fills@) + fills_of(
                exchange_id@,
                events@.skip(i as int),
            ),
        decreases events@.len() - i,
    {
        let ghost before = fills@;
        proof {
            assert(events@.skip(i as int).skip(1) =~= events@.skip(i + 1));
            assert(events@.skip(i as int)[0] == events@[i as int]);
        }
        match &events[i] {
            Ok(Success::Filled { side, order_type, price, qty, order_creator, .. }) => {
                let trader = match account_hash(order_creator) {
                    Some(hash) => hash,
                    None => {
                        assert(is_fill(events@[i as int]));
                        return None;
                    },
                };
                fills.push(
                    Fill {
                        side: *side,
                        order_type: *order_type,
                        price: *price,
                        qty: *qty,
                        trader,
                        own: order_creator.same(exchange_id),
                    },
                );
            },
            Ok(Success::PartiallyFilled { side, order_type, price, qty, order_creator, .. }) => {
                let trader = match account_hash(order_creator) {
                    Some(hash) => hash,
                    None => {
                        assert(is_fill(events@[i as int]));
                        return None;
                    },
                };
                fills.push(
                    Fill {
                        side: *side,
                        order_type: *order_type,
                        price: *price,
                        qty: *qty,
                        trader,
                        own: order_creator.same(exchange_id),
                    },
                );
            },
            _ => {},
        }
        proof {
            let rest = fills_of(exchange_id@, events@.skip(i + 1));
            match fill_of(exchange_id@, events@[i as int]) {
                Some(fill) => {
                    assert(viewed(fills@) =~= viewed(before).push(fill));
                    assert(viewed(fills@) + rest =~= viewed(before) + (seq![fill] + rest));
                },
                None => {
                    assert(viewed(fills@) =~= viewed(before));
                },
            }
        }
        i = i + 1;
    }
    proof {
        assert(viewed(fills@) + Seq::<FillState>::empty() =~= viewed(fills@));
    }
    Some(fills)
}

/// A list of events reports a fill exactly if a fill is among its events.
pub proof fn lemma_fills_of_some(exchange: Seq<char>, events: Seq<Result<Success, Failed>>)
    ensures
        fills_of(exchange, events).len() > 0 <==> has_fill(events),
    decreases events.len(),
{
    if events.len() > 0 {
        let rest = events.skip(1);
        lemma_fills_of_some(exchange, rest);
        if has_fill(rest) {
            let i = choose|i: int| 0 <= i < rest.len() && is_fill(#[trigger] rest[i]);
            assert(is_fill(events[i + 1]));
        }
        if has_fill(events) {
            let i = choose|i: int| 0 <= i < events.len() && is_fill(#[trigger] events[i]);
            if i > 0 {
                assert(is_fill(rest[i - 1]));
            }
        }
        if is_fill(events[0]) {
            assert(has_fill(events));
        }
    }
}

/// Events without a fill leave the ledger as it is.
pub proof fn lemma_nothing_to_settle(
    ledger: LedgerState,
    exchange: Seq<char>,
    token: Seq<char>,
    quote: Seq<char>,
    events: Seq<Result<Success, Failed>>,
)
    requires
        !has_fill(events),
    ensures
        settled(ledger, exchange, token, quote, events) == (Settlement { ledger, failure: None }),
{
    lemma_fills_of_some(exchange, events);
}

/// Paying fills never fails for want of a host: every refusal is one of the
/// ledger's own.
pub proof fn lemma_settlement_needs_no_host(
    ledger: LedgerState,
    bank: Seq<u8>,
    token: Seq<char>,
    quote: Seq<char>,
    fills: Seq<FillState>,
)
    ensures
        fills_paid(ledger, bank, token, quote, fills).failure != Some(LedgerError::NoHost),
    decreases fills.len(),
{
    if fills.len() > 0 {
        let first = fill_paid(ledger, bank, token, quote, fills[0]);
        if first.failure is None {
            lemma_settlement_needs_no_host(first.ledger, bank, token, quote, fills.skip(1));
        }
    }
}

/// A transfer conserves every asset, whether it is made or refused.
proof fn lemma_move_conserves(
    ledger: LedgerState,
    escrow: Option<Seq<u8>>,
    owner: Seq<u8>,
    recipient: Seq<u8>,
    token: Seq<char>,
    amount: u128,
    any_token: Seq<char>,
)
    ensures
        total_balance(moved(ledger, escrow, owner, recipient, token, amount).ledger, any_token)
            == total_balance(ledger, any_token),
{
    if transfer_refusal(ledger, escrow, owner, recipient, token, amount) is None {
        lemma_transfer_conserves(ledger, escrow, owner, recipient, token, amount, any_token);
    }
}

/// The settlement of one fill conserves every asset.
pub proof fn lemma_fill_conserves(
    ledger: LedgerState,
    bank: Seq<u8>,
    token: Seq<char>,
    quote: Seq<char>,
    fill: FillState,
    any_token: Seq<char>,
)
    ensures
        total_balance(fill_paid(ledger, bank, token, quote, fill).ledger, any_token)
            == total_balance(ledger, any_token),
{
    match fill.side {
        OrderSide::Ask => {
            if let Some(amount) = quote_amount(fill.price, fill.qty) {
                lemma_move_conserves(ledger, None, bank, fill.trader, quote, amount, any_token);
            }
        },
        OrderSide::Bid => match fill.order_type {
            OrderType::Limit => {
                lemma_move_conserves(ledger, None, bank, fill.trader, token, fill.qty, any_token);
            },
            OrderType::Market => {
                if let Some(amount) = quote_amount(fill.price, fill.qty) {
                    let escrow = drawn_by(bank, fill);
                    let paid = moved(ledger, escrow, fill.trader, bank, quote, amount);
                    lemma_move_conserves(ledger, escrow, fill.trader, bank, quote, amount, any_token);
                    if paid.failure is None {
                        lemma_move_conserves(
                            paid.ledger,
                            None,
                            bank,
                            fill.trader,
                            token,
                            fill.qty,
                            any_token,
                        );
                    }
                }
            },
        },
    }
}

/// Paying a list of fills conserves every asset, whether or not a transfer
/// is refused on the way.
pub proof fn lemma_fills_conserve(
    ledger: LedgerState,
    bank: Seq<u8>,
    token: Seq<char>,
    quote: Seq<char>,
    fills: Seq<FillState>,
    any_token: Seq<char>,
)
    ensures
        total_balance(fills_paid(ledger, bank, token, quote, fills).ledger, any_token)
            == total_balance(ledger, any_token),
    decreases fills.len(),
{
    if fills.len() > 0 {
        let first = fill_paid(ledger, bank, token, quote, fills[0]);
        lemma_fill_conserves(ledger, bank, token, quote, fills[0], any_token);
        if first.failure is None {
            lemma_fills_conserve(first.ledger, bank, token, quote, fills.skip(1), any_token);
        }
    }
}

/// Settlement conserves every asset: whatever the events of a book, and
/// whether or not a transfer is refused on the way, the sum of what all
/// wallets hold of a token is after the settlement what it was before.
pub proof fn lemma_settlement_conserves(
    ledger: LedgerState,
    exchange: Seq<char>,
    token: Seq<char>,
    quote: Seq<char>,
    events: Seq<Result<Success, Failed>>,
    any_token: Seq<char>,
)
    ensures
        total_balance(settled(ledger, exchange, token, quote, events).ledger, any_token)
            == total_balance(ledger, any_token),
{
    lemma_fills_conserve(
        ledger,
        principal_hash(exchange),
        token,
        quote,
        fills_of(exchange, events),
        any_token,
    );
}

} // verus!
