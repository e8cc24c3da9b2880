//! The book of one asset pair: two queues and the matching of incoming
//! orders against them.
//!
//! Every trade is made at the price of the resting order. An incoming order
//! is matched against the top of the opposite queue until it is filled, the
//! opposite queue is empty or, for a limit order, the prices no longer
//! cross; what is left of a limit order then rests in the queue of its own
//! side.

use crate::domain::{Order, OrderSide, OrderType};
use crate::order_queues::{
    lemma_cancelled_entries, lemma_live_entries, lemma_modified_keeps_wf, lemma_peeked_keeps_wf,
    lemma_popped_keeps_wf, lemma_reindex_keeps_wf, lemma_reindexed_entries, lemma_settled_index,
    filled, lemma_top_is_first, lemma_top_none_iff_empty, live_in, OrderIndex, OrderQueue,
    QueueState,
};
use crate::orders::OrderRequest;
use crate::sequence::{new_sequence_gen, resume_sequence_gen, TradeSequence};
use crate::validation::{first_violation, OrderRequestValidator, ValidationError};
use vstd::prelude::*;

verus! {

/// First order id that a book hands out.
pub const MIN_SEQUENCE_ID: u64 = 1;

/// Last order id that a book hands out before it starts over.
pub const MAX_SEQUENCE_ID: u64 = 1000;

/// Number of cancels after which a queue is due for compaction.
pub const MAX_STALLED_INDICES_IN_QUEUE: u64 = 10;

/// Number of orders that a new queue makes room for.
pub const ORDER_QUEUE_INIT_CAPACITY: usize = 500;

/// What happened to an order.
#[derive(Debug)]
pub enum Success {
    Accepted { id: u64, order_type: OrderType, order_creator: String, ts: u64 },
    Filled {
        order_id: u64,
        side: OrderSide,
        order_type: OrderType,
        /// Price of the trade in ticks.
        price: u128,
        /// Quantity of the trade.
        qty: u128,
        order_creator: String,
        ts: u64,
    },
    PartiallyFilled {
        order_id: u64,
        side: OrderSide,
        order_type: OrderType,
        /// Price of the trade in ticks.
        price: u128,
        /// Quantity of the trade.
        qty: u128,
        order_creator: String,
        ts: u64,
    },
    Amended { id: u64, price: u128, qty: u128, ts: u64 },
    Cancelled { id: u64, ts: u64 },
}

/// Why nothing, or nothing more, happened to an order.
#[derive(Debug)]
pub enum Failed {
    ValidationFailed(String),
    DuplicateOrderID(u64),
    NoMatch(u64),
    OrderNotFound(u64),
}

/// The events of one request, in the order in which they occurred.
pub type OrderProcessingResult = Vec<Result<Success, Failed>>;

/// An incoming order while it is matched.
pub struct Taker {
    pub order_id: u64,
    pub order_asset: String,
    pub price_asset: String,
    pub order_type: OrderType,
    pub side: OrderSide,
    pub order_creator: String,
}

/// What a book holds.
pub struct BookState {
    pub order_asset: String,
    pub price_asset: String,
    pub bids: QueueState<Order>,
    pub asks: QueueState<Order>,
    /// The id that the next new order gets.
    pub next_id: u64,
    /// The first id of the range that order ids are taken from.
    pub first_id: u64,
    /// The last id of that range.
    pub last_id: u64,
    /// The base asset that a new order has to name.
    pub checked_order_asset: Seq<char>,
    /// The quote asset that a new order has to name.
    pub checked_price_asset: Seq<char>,
}

/// A book after some work on it, and the events of that work.
pub struct Outcome {
    pub book: BookState,
    pub events: Seq<Result<Success, Failed>>,
}

/// One matching step: the book after it, its two events, and whether the
/// incoming order is filled.
pub struct Step {
    pub book: BookState,
    pub events: Seq<Result<Success, Failed>>,
    pub complete: bool,
}

/// The fill of `qty` at `price` that an incoming order reports.
pub open spec fn taker_fill(whole: bool, taker: Taker, price: u128, qty: u128, now: u64) -> Result<
    Success,
    Failed,
> {
    if whole {
        Ok(
            Success::Filled {
                order_id: taker.order_id,
                side: taker.side,
                order_type: taker.order_type,
                price,
                qty,
                order_creator: taker.order_creator,
                ts: now,
            },
        )
    } else {
        Ok(
            Success::PartiallyFilled {
                order_id: taker.order_id,
                side: taker.side,
                order_type: taker.order_type,
                price,
                qty,
                order_creator: taker.order_creator,
                ts: now,
            },
        )
    }
}

/// The fill of `qty` that a resting order reports, at its own price.
pub open spec fn maker_fill(whole: bool, resting: Order, qty: u128, now: u64) -> Result<
    Success,
    Failed,
> {
    if whole {
        Ok(
            Success::Filled {
                order_id: resting.order_id,
                side: resting.side,
                order_type: OrderType::Limit,
                price: resting.price,
                qty,
                order_creator: resting.order_creator,
                ts: now,
            },
        )
    } else {
        Ok(
            Success::PartiallyFilled {
                order_id: resting.order_id,
                side: resting.side,
                order_type: OrderType::Limit,
                price: resting.price,
                qty,
                order_creator: resting.order_creator,
                ts: now,
            },
        )
    }
}

/// The quantity that an event reports as traded; 0 for an event that is no
/// fill.
pub open spec fn traded(event: Result<Success, Failed>) -> u128 {
    match event {
        Ok(Success::Filled { qty, .. }) => qty,
        Ok(Success::PartiallyFilled { qty, .. }) => qty,
        _ => 0,
    }
}

/// The quantities that the events report as traded, added up.
pub open spec fn volume(events: Seq<Result<Success, Failed>>) -> nat
    decreases events.len(),
{
    if events.len() == 0 {
        0
    } else {
        volume(events.drop_last()) + traded(events.last()) as nat
    }
}

/// The price at which an event reports a trade, if it reports one.
pub open spec fn fill_price(event: Result<Success, Failed>) -> Option<u128> {
    match event {
        Ok(Success::Filled { price, .. }) => Some(price),
        Ok(Success::PartiallyFilled { price, .. }) => Some(price),
        _ => None,
    }
}

/// Whether no trade that the events report is made at a worse price than
/// `limit` for an order of `side`: above it for a bid, below it for an ask.
pub open spec fn within_limit(
    events: Seq<Result<Success, Failed>>,
    side: OrderSide,
    limit: u128,
) -> bool {
    forall|k: int|
        0 <= k < events.len() ==> match fill_price(#[trigger] events[k]) {
            Some(price) => match side {
                OrderSide::Bid => price <= limit,
                OrderSide::Ask => price >= limit,
            },
            None => true,
        }
}

/// The limit order that what is left of `taker` rests as.
pub open spec fn rest_of(taker: Taker, price: u128, qty: u128) -> Order {
    Order {
        order_id: taker.order_id,
        order_asset: taker.order_asset,
        price_asset: taker.price_asset,
        side: taker.side,
        price,
        qty,
        order_creator: taker.order_creator,
    }
}

/// What is stored of a queue: its index with the top of the queue last, its
/// orders by their ids, and its count of cancels.
#[derive(Debug)]
pub struct QueueParts {
    pub op_counter: u64,
    pub index: Vec<OrderIndex>,
    pub orders: Vec<(u64, Order)>,
}

impl QueueParts {
    /// The queue of `side` that these parts describe.
    pub open spec fn state(self, side: OrderSide) -> QueueState<Order> {
        QueueState {
            index: self.index@,
            orders: filled(Map::empty(), self.orders@),
            op_counter: self.op_counter,
            max_stalled: MAX_STALLED_INDICES_IN_QUEUE,
            side,
        }
    }
}

/// Whether `order` is what `key` ranks in a queue of `side`: it has the id
/// and the price of the key and the side of the queue, and something of it
/// is open.
pub open spec fn matches_key(order: Order, key: OrderIndex, side: OrderSide) -> bool {
    &&& order.order_id == key.id
    &&& order.side == side
    &&& order.price == key.price
    &&& order.qty > 0
}

/// Whether every resting order of a queue is what its key ranks.
pub open spec fn keyed(queue: QueueState<Order>) -> bool {
    forall|i: int|
        0 <= i < queue.index.len() && queue.orders.contains_key((#[trigger] queue.index[i]).id)
            ==> matches_key(queue.orders[queue.index[i].id], queue.index[i], queue.side)
}

/// The orders of one creator.
pub open spec fn created_by(creator: Seq<char>) -> spec_fn(Order) -> bool {
    |order: Order| order.order_creator@ == creator
}

impl BookState {
    /// The invariant of a book.
    pub open spec fn wf(self) -> bool {
        &&& self.bids.wf()
        &&& self.asks.wf()
        &&& self.bids.side == OrderSide::Bid
        &&& self.asks.side == OrderSide::Ask
        &&& self.first_id <= self.next_id <= self.last_id
        &&& keyed(self.bids)
        &&& keyed(self.asks)
    }

    /// Whether the best bid is at or above the best ask.
    pub open spec fn crossed(self) -> bool {
        match self.spread() {
            Some((bid, ask)) => bid >= ask,
            None => false,
        }
    }

    /// The queue of one side.
    pub open spec fn queue(self, side: OrderSide) -> QueueState<Order> {
        match side {
            OrderSide::Bid => self.bids,
            OrderSide::Ask => self.asks,
        }
    }

    /// The book with the queue of one side replaced.
    pub open spec fn with_queue(self, side: OrderSide, queue: QueueState<Order>) -> BookState {
        match side {
            OrderSide::Bid => BookState { bids: queue, ..self },
            OrderSide::Ask => BookState { asks: queue, ..self },
        }
    }

    /// The book after a look at the top of one queue.
    pub open spec fn looked(self, side: OrderSide) -> BookState {
        self.with_queue(side, self.queue(side).peeked())
    }

    /// The book after it handed out an order id.
    pub open spec fn advanced(self) -> BookState {
        BookState {
            next_id: TradeSequence::successor(self.first_id, self.last_id, self.next_id),
            ..self
        }
    }

    /// Whether a limit order of `side` at `price` trades with `resting`.
    pub open spec fn crosses(side: OrderSide, price: u128, resting: Order) -> bool {
        match side {
            OrderSide::Bid => price >= resting.price,
            OrderSide::Ask => price <= resting.price,
        }
    }

    /// One matching step of `qty` of `taker` against `resting`, the order at
    /// the top of the opposite queue. The smaller of the two quantities is
    /// traded at the price of `resting`. A resting order that is not used up
    /// stays at the top with what is left of it; one that is used up leaves
    /// the queue.
    pub open spec fn matched(self, resting: Order, taker: Taker, qty: u128, now: u64) -> Step {
        let opposite = taker.side.opposite();
        if qty < resting.qty {
            let left = Order {
                order_id: resting.order_id,
                order_asset: taker.order_asset,
                price_asset: taker.price_asset,
                side: resting.side,
                price: resting.price,
                qty: (resting.qty - qty) as u128,
                order_creator: resting.order_creator,
            };
            Step {
                book: self.with_queue(opposite, self.queue(opposite).modified(left)),
                events: seq![
                    taker_fill(true, taker, resting.price, qty, now),
                    maker_fill(false, resting, qty, now),
                ],
                complete: true,
            }
        } else if qty > resting.qty {
            Step {
                book: self.with_queue(opposite, self.queue(opposite).popped()),
                events: seq![
                    taker_fill(false, taker, resting.price, resting.qty, now),
                    maker_fill(true, resting, resting.qty, now),
                ],
                complete: false,
            }
        } else {
            Step {
                book: self.with_queue(opposite, self.queue(opposite).popped()),
                events: seq![
                    taker_fill(true, taker, resting.price, qty, now),
                    maker_fill(true, resting, qty, now),
                ],
                complete: true,
            }
        }
    }

    /// What is left of a limit order comes to rest in the queue of its side.
    /// A queue that already holds its id refuses it.
    pub open spec fn stored(self, taker: Taker, price: u128, qty: u128, ts: u64) -> Outcome {
        let queue = self.queue(taker.side);
        Outcome {
            book: self.with_queue(
                taker.side,
                queue.inserted(taker.order_id, price, qty, ts, rest_of(taker, price, qty)),
            ),
            events: if queue.orders.contains_key(taker.order_id) {
                seq![Err(Failed::DuplicateOrderID(taker.order_id))]
            } else {
                Seq::empty()
            },
        }
    }

    /// A limit order of `qty` at `price` is matched step by step while the
    /// top of the opposite queue crosses its price; what is left then rests.
    pub open spec fn limit_filled(
        self,
        taker: Taker,
        price: u128,
        qty: u128,
        ts: u64,
        now: u64,
    ) -> Outcome
        decreases self.queue(taker.side.opposite()).index.len(),
        via Self::limit_filled_terminates
    {
        let opposite = taker.side.opposite();
        let looked = self.looked(opposite);
        match self.queue(opposite).top() {
            Some(resting) => {
                if Self::crosses(taker.side, price, resting) {
                    let step = looked.matched(resting, taker, qty, now);
                    if step.complete {
                        Outcome { book: step.book, events: step.events }
                    } else {
                        let rest = step.book.limit_filled(
                            taker,
                            price,
                            (qty - resting.qty) as u128,
                            ts,
                            now,
                        );
                        Outcome { book: rest.book, events: step.events + rest.events }
                    }
                } else {
                    looked.stored(taker, price, qty, ts)
                }
            },
            None => looked.stored(taker, price, qty, ts),
        }
    }

    /// Each matching step that leaves something to fill takes an order out
    /// of the opposite queue.
    #[via_fn]
    proof fn limit_filled_terminates(
        self,
        taker: Taker,
        price: u128,
        qty: u128,
        ts: u64,
        now: u64,
    ) {
        let queue = self.queue(taker.side.opposite());
        lemma_settled_index(queue.index, queue.orders.dom());
        lemma_settled_index(queue.settled_index(), queue.orders.dom());
    }

    /// A market order of `qty` is matched step by step until it is filled. It
    /// stops with `NoMatch` where the opposite queue has no order left.
    pub open spec fn market_filled(self, taker: Taker, qty: u128, now: u64) -> Outcome
        decreases self.queue(taker.side.opposite()).index.len(),
        via Self::market_filled_terminates
    {
        let opposite = taker.side.opposite();
        let looked = self.looked(opposite);
        match self.queue(opposite).top() {
            Some(resting) => {
                let step = looked.matched(resting, taker, qty, now);
                if step.complete {
                    Outcome { book: step.book, events: step.events }
                } else {
                    let rest = step.book.market_filled(taker, (qty - resting.qty) as u128, now);
                    Outcome { book: rest.book, events: step.events + rest.events }
                }
            },
            None => Outcome { book: looked, events: seq![Err(Failed::NoMatch(taker.order_id))] },
        }
    }

    /// Each matching step that leaves something to fill takes an order out
    /// of the opposite queue.
    #[via_fn]
    proof fn market_filled_terminates(self, taker: Taker, qty: u128, now: u64) {
        let queue = self.queue(taker.side.opposite());
        lemma_settled_index(queue.index, queue.orders.dom());
        lemma_settled_index(queue.settled_index(), queue.orders.dom());
    }

    /// An amendment replaces the resting order of that id and ranks it anew;
    /// it is never matched against the opposite side.
    pub open spec fn amend_processed(
        self,
        id: u64,
        side: OrderSide,
        price: u128,
        qty: u128,
        order_creator: String,
        ts: u64,
        now: u64,
    ) -> Outcome {
        let queue = self.queue(side);
        let order = Order {
            order_id: id,
            order_asset: self.order_asset,
            price_asset: self.price_asset,
            side,
            price,
            qty,
            order_creator,
        };
        Outcome {
            book: self.with_queue(side, queue.amended(id, price, qty, ts, order)),
            events: if queue.orders.contains_key(id) {
                seq![Ok(Success::Amended { id, price, qty, ts: now })]
            } else {
                seq![Err(Failed::OrderNotFound(id))]
            },
        }
    }

    /// A cancel takes the resting order of that id out of its queue.
    pub open spec fn cancel_processed(self, id: u64, side: OrderSide, now: u64) -> Outcome {
        let queue = self.queue(side);
        Outcome {
            book: self.with_queue(side, queue.cancelled(id)),
            events: if queue.orders.contains_key(id) {
                seq![Ok(Success::Cancelled { id, ts: now })]
            } else {
                seq![Err(Failed::OrderNotFound(id))]
            },
        }
    }

    /// The first rule that a request breaks, if it breaks one.
    pub open spec fn refusal(self, request: OrderRequest) -> Option<ValidationError> {
        first_violation(self.checked_order_asset, self.checked_price_asset, request)
    }

    /// What a request that breaks no rule does to the book at time `now`.
    pub open spec fn processed(self, request: OrderRequest, now: u64) -> Outcome {
        match request {
            OrderRequest::NewMarketOrder {
                order_asset,
                price_asset,
                side,
                qty,
                order_creator,
                ts,
            } => {
                let taker = Taker {
                    order_id: self.next_id,
                    order_asset,
                    price_asset,
                    order_type: OrderType::Market,
                    side,
                    order_creator,
                };
                let filled = self.advanced().market_filled(taker, qty, now);
                Outcome {
                    book: filled.book,
                    events: seq![
                        Ok(
                            Success::Accepted {
                                id: self.next_id,
                                order_type: OrderType::Market,
                                order_creator,
                                ts: now,
                            },
                        ),
                    ] + filled.events,
                }
            },
            OrderRequest::NewLimitOrder {
                order_asset,
                price_asset,
                side,
                price,
                qty,
                order_creator,
                ts,
            } => {
                let taker = Taker {
                    order_id: self.next_id,
                    order_asset,
                    price_asset,
                    order_type: OrderType::Limit,
                    side,
                    order_creator,
                };
                let filled = self.advanced().limit_filled(taker, price, qty, ts, now);
                Outcome {
                    book: filled.book,
                    events: seq![
                        Ok(
                            Success::Accepted {
                                id: self.next_id,
                                order_type: OrderType::Limit,
                                order_creator,
                                ts: now,
                            },
                        ),
                    ] + filled.events,
                }
            },
            OrderRequest::AmendOrder { id, side, price, qty, ts, order_creator } => {
                self.amend_processed(id, side, price, qty, order_creator, ts, now)
            },
            OrderRequest::CancelOrder { id, side } => self.cancel_processed(id, side, now),
        }
    }

    /// The best bid and the best ask, where both sides hold an order.
    pub open spec fn spread(self) -> Option<(u128, u128)> {
        match (self.bids.top(), self.asks.top()) {
            (Some(bid), Some(ask)) => Some((bid.price, ask.price)),
            _ => None,
        }
    }
}

/// Conservation at matching. One step against the order at the top of the
/// opposite queue reports the same traded quantity twice, once for each
/// order: the smaller of the two open quantities. A resting order that is
/// not used up stays at the top, at its rank, with its open quantity
/// reduced by exactly what was traded; one that is used up leaves the
/// queue. The queue of the incoming order's own side is not touched.
pub proof fn lemma_matching_conserves(
    book: BookState,
    resting: Order,
    taker: Taker,
    qty: u128,
    now: u64,
)
    requires
        book.wf(),
        book.queue(taker.side.opposite()).top_is_live(),
        book.queue(taker.side.opposite()).top() == Some(resting),
    ensures
        ({
            let opposite = taker.side.opposite();
            let step = book.matched(resting, taker, qty, now);
            let before = book.queue(opposite);
            let after = step.book.queue(opposite);
            let volume = if qty < resting.qty {
                qty
            } else {
                resting.qty
            };
            &&& step.events.len() == 2
            &&& traded(step.events[0]) == volume
            &&& traded(step.events[1]) == volume
            &&& step.complete == (qty <= resting.qty)
            &&& step.book.queue(taker.side) == book.queue(taker.side)
            &&& qty < resting.qty ==> {
                &&& after.index == before.index
                &&& after.orders.dom() == before.orders.dom()
                &&& after.top() is Some
                &&& after.top()->0.qty == resting.qty - volume
                &&& after.top()->0.price == resting.price
            }
            &&& qty >= resting.qty ==> {
                &&& after.index == before.index.drop_last()
                &&& after.orders == before.orders.remove(before.index.last().id)
            }
        }),
{
    let opposite = taker.side.opposite();
    let before = book.queue(opposite);
    let step = book.matched(resting, taker, qty, now);
    let after = step.book.queue(opposite);
    assert(before.settled_index() == before.index);
    if qty < resting.qty {
        assert(after.orders.dom() =~= before.orders.dom());
        assert(after.settled_index() == after.index);
    }
}

/// Dropping stale entries from the top leaves every resting order with its
/// key.
pub proof fn lemma_keyed_peeked(q: QueueState<Order>)
    requires
        keyed(q),
    ensures
        keyed(q.peeked()),
{
    lemma_settled_index(q.index, q.orders.dom());
    let settled = q.settled_index();
    assert forall|i: int|
        0 <= i < settled.len() && q.orders.contains_key((#[trigger] settled[i]).id) implies matches_key(
        q.orders[settled[i].id],
        settled[i],
        q.side,
    ) by {
        assert(settled[i] == q.index[i]);
    }
}

/// Taking the top order out leaves every other resting order with its key.
pub proof fn lemma_keyed_popped(q: QueueState<Order>)
    requires
        q.wf(),
        keyed(q),
    ensures
        keyed(q.popped()),
{
    lemma_settled_index(q.index, q.orders.dom());
    lemma_keyed_peeked(q);
    let settled = q.settled_index();
    let after = q.popped();
    if settled.len() > 0 {
        assert forall|i: int|
            0 <= i < after.index.len() && after.orders.contains_key(
                (#[trigger] after.index[i]).id,
            ) implies matches_key(after.orders[after.index[i].id], after.index[i], after.side) by {
            assert(after.index[i] == q.index[i]);
        }
    }
}

/// Putting another order in the place of the top order leaves every resting
/// order with its key where the new order is what the key of the top ranks.
pub proof fn lemma_keyed_modified(q: QueueState<Order>, order: Order)
    requires
        q.wf(),
        keyed(q),
        q.top_is_live() ==> matches_key(order, q.index.last(), q.side),
    ensures
        keyed(q.modified(order)),
{
    let after = q.modified(order);
    if q.top_is_live() {
        assert forall|i: int|
            0 <= i < after.index.len() && after.orders.contains_key(
                (#[trigger] after.index[i]).id,
            ) implies matches_key(after.orders[after.index[i].id], after.index[i], after.side) by {
            if i < q.index.len() - 1 {
                assert(q.index[i].id != q.index[q.index.len() - 1].id);
            }
        }
    }
}

/// Storing an order under a key that ranks it leaves every resting order
/// with its key.
pub proof fn lemma_keyed_reindexed(
    q: QueueState<Order>,
    id: u64,
    price: u128,
    qty: u128,
    ts: u64,
    order: Order,
)
    requires
        keyed(q),
        matches_key(order, q.key(id, price, qty, ts), q.side),
    ensures
        keyed(q.reindexed(id, price, qty, ts, order)),
{
    let after = q.reindexed(id, price, qty, ts, order);
    lemma_reindexed_entries(q, id, price, qty, ts, order);
    assert forall|j: int|
        0 <= j < after.index.len() && after.orders.contains_key(
            (#[trigger] after.index[j]).id,
        ) implies matches_key(after.orders[after.index[j].id], after.index[j], after.side) by {
        let entry = after.index[j];
        if entry != q.key(id, price, qty, ts) {
            assert(q.index.contains(entry));
            let i = choose|i: int| 0 <= i < q.index.len() && q.index[i] == entry;
            assert(q.orders.contains_key(q.index[i].id));
        }
    }
}

/// A cancel leaves every other resting order with its key.
pub proof fn lemma_keyed_cancelled(q: QueueState<Order>, id: u64)
    requires
        keyed(q),
    ensures
        keyed(q.cancelled(id)),
{
    let after = q.cancelled(id);
    lemma_cancelled_entries(q, id);
    assert forall|j: int|
        0 <= j < after.index.len() && after.orders.contains_key(
            (#[trigger] after.index[j]).id,
        ) implies matches_key(after.orders[after.index[j].id], after.index[j], after.side) by {
        let entry = after.index[j];
        assert(q.index.contains(entry));
        let i = choose|i: int| 0 <= i < q.index.len() && q.index[i] == entry;
        assert(q.orders.contains_key(q.index[i].id));
    }
}

/// The order at the top of a queue has the best price of its side: no
/// resting bid has a higher price than the top bid, and no resting ask a
/// lower price than the top ask.
pub proof fn lemma_top_price_is_best(book: BookState, side: OrderSide, i: int)
    requires
        book.wf(),
        0 <= i < book.queue(side).index.len(),
        book.queue(side).orders.contains_key(book.queue(side).index[i].id),
    ensures
        book.queue(side).top() is Some,
        match side {
            OrderSide::Bid => book.queue(side).orders[book.queue(side).index[i].id].price
                <= book.queue(side).top()->0.price,
            OrderSide::Ask => book.queue(side).orders[book.queue(side).index[i].id].price
                >= book.queue(side).top()->0.price,
        },
{
    let q = book.queue(side);
    lemma_top_is_first(q, i);
    lemma_settled_index(q.index, q.orders.dom());
    let settled = q.settled_index();
    assert(settled.last() == q.index[settled.len() - 1]);
    assert(q.orders.contains_key(q.index[settled.len() - 1].id));
    assert(q.index[i].order_side == q.side);
}

/// The order at the top of a queue is the order of an entry of its index.
proof fn lemma_top_entry(q: QueueState<Order>) -> (i: int)
    requires
        q.wf(),
        q.top() is Some,
    ensures
        0 <= i < q.index.len(),
        i == q.settled_index().len() - 1,
        q.orders.contains_key(q.index[i].id),
        q.top() == Some(q.orders[q.index[i].id]),
{
    lemma_settled_index(q.index, q.orders.dom());
    let settled = q.settled_index();
    assert(settled.last() == q.index[settled.len() - 1]);
    settled.len() - 1
}

/// A look at the top of one queue keeps the invariant of the book and
/// leaves both top orders as they are.
pub proof fn lemma_looked(book: BookState, side: OrderSide)
    requires
        book.wf(),
    ensures
        book.looked(side).wf(),
        book.looked(side).bids.top() == book.bids.top(),
        book.looked(side).asks.top() == book.asks.top(),
        book.looked(side).queue(side).top() is Some ==> book.looked(side).queue(side).top_is_live(),
{
    let q = book.queue(side);
    lemma_peeked_keeps_wf(q);
    lemma_keyed_peeked(q);
    lemma_settled_index(q.index, q.orders.dom());
}

/// One matching step against the order at the top of the opposite queue
/// keeps the invariant of the book and leaves the own side as it is. A book
/// that was not crossed is not crossed after the step.
pub proof fn lemma_matched_step(
    book: BookState,
    resting: Order,
    taker: Taker,
    qty: u128,
    now: u64,
)
    requires
        book.wf(),
        book.queue(taker.side.opposite()).top_is_live(),
        book.queue(taker.side.opposite()).top() == Some(resting),
    ensures
        book.matched(resting, taker, qty, now).book.wf(),
        book.matched(resting, taker, qty, now).book.queue(taker.side) == book.queue(taker.side),
        !book.crossed() ==> !book.matched(resting, taker, qty, now).book.crossed(),
{
    let opposite = taker.side.opposite();
    let q = book.queue(opposite);
    let step = book.matched(resting, taker, qty, now);
    assert(q.settled_index() == q.index);
    assert(resting == q.orders[q.index.last().id]);
    if qty < resting.qty {
        let left = Order {
            order_id: resting.order_id,
            order_asset: taker.order_asset,
            price_asset: taker.price_asset,
            side: resting.side,
            price: resting.price,
            qty: (resting.qty - qty) as u128,
            order_creator: resting.order_creator,
        };
        lemma_modified_keeps_wf(q, left);
        lemma_keyed_modified(q, left);
    } else {
        lemma_popped_keeps_wf(q);
        lemma_keyed_popped(q);
        let after = q.popped();
        if after.top() is Some {
            let i = lemma_top_entry(after);
            assert(after.index[i] == q.index[i]);
            lemma_top_price_is_best(book, opposite, i);
        }
    }
}

/// What is left of a limit order comes to rest without crossing the book,
/// where its price does not cross the top of the opposite side.
pub proof fn lemma_stored_keeps_uncrossed(
    book: BookState,
    taker: Taker,
    price: u128,
    qty: u128,
    ts: u64,
)
    requires
        book.wf(),
        !book.crossed(),
        qty > 0,
        match book.queue(taker.side.opposite()).top() {
            Some(resting) => !BookState::crosses(taker.side, price, resting),
            None => true,
        },
    ensures
        book.stored(taker, price, qty, ts).book.wf(),
        !book.stored(taker, price, qty, ts).book.crossed(),
        book.stored(taker, price, qty, ts).book.queue(taker.side.opposite()) == book.queue(
            taker.side.opposite(),
        ),
{
    let q = book.queue(taker.side);
    let id = taker.order_id;
    if !q.orders.contains_key(id) {
        let order = rest_of(taker, price, qty);
        lemma_reindex_keeps_wf(q, id, price, qty, ts, order);
        lemma_keyed_reindexed(q, id, price, qty, ts, order);
        let after = q.reindexed(id, price, qty, ts, order);
        lemma_top_none_iff_empty(after);
        assert(after.orders.dom().contains(id));
        let i = lemma_top_entry(after);
        let entry = after.index[i];
        lemma_reindexed_entries(q, id, price, qty, ts, order);
        if entry != q.key(id, price, qty, ts) {
            assert(q.index.contains(entry));
            let j = choose|j: int| 0 <= j < q.index.len() && q.index[j] == entry;
            assert(q.orders.contains_key(q.index[j].id));
            lemma_top_price_is_best(book, taker.side, j);
        }
    }
}

/// A limit order leaves a book that is not crossed not crossed, and keeps
/// the invariant of the book: every resting order still carries the price
/// of its key and an open quantity.
pub proof fn lemma_limit_order_keeps_uncrossed(
    book: BookState,
    taker: Taker,
    price: u128,
    qty: u128,
    ts: u64,
    now: u64,
)
    requires
        book.wf(),
        !book.crossed(),
        qty > 0,
    ensures
        book.limit_filled(taker, price, qty, ts, now).book.wf(),
        !book.limit_filled(taker, price, qty, ts, now).book.crossed(),
    decreases book.queue(taker.side.opposite()).index.len(),
{
    let opposite = taker.side.opposite();
    let q = book.queue(opposite);
    let looked = book.looked(opposite);
    lemma_looked(book, opposite);
    lemma_settled_index(q.index, q.orders.dom());
    lemma_settled_index(q.settled_index(), q.orders.dom());
    match q.top() {
        Some(resting) => {
            if BookState::crosses(taker.side, price, resting) {
                lemma_matched_step(looked, resting, taker, qty, now);
                let step = looked.matched(resting, taker, qty, now);
                if !step.complete {
                    lemma_limit_order_keeps_uncrossed(
                        step.book,
                        taker,
                        price,
                        (qty - resting.qty) as u128,
                        ts,
                        now,
                    );
                }
            } else {
                lemma_stored_keeps_uncrossed(looked, taker, price, qty, ts);
            }
        },
        None => {
            lemma_stored_keeps_uncrossed(looked, taker, price, qty, ts);
        },
    }
}

/// A market order leaves a book that is not crossed not crossed, keeps the
/// invariant of the book, and does not touch the queue of its own side.
pub proof fn lemma_market_order_keeps_uncrossed(
    book: BookState,
    taker: Taker,
    qty: u128,
    now: u64,
)
    requires
        book.wf(),
    ensures
        book.market_filled(taker, qty, now).book.wf(),
        !book.crossed() ==> !book.market_filled(taker, qty, now).book.crossed(),
        book.market_filled(taker, qty, now).book.queue(taker.side) == book.queue(taker.side),
    decreases book.queue(taker.side.opposite()).index.len(),
{
    let opposite = taker.side.opposite();
    let q = book.queue(opposite);
    let looked = book.looked(opposite);
    lemma_looked(book, opposite);
    lemma_settled_index(q.index, q.orders.dom());
    lemma_settled_index(q.settled_index(), q.orders.dom());
    match q.top() {
        Some(resting) => {
            lemma_matched_step(looked, resting, taker, qty, now);
            let step = looked.matched(resting, taker, qty, now);
            if !step.complete {
                lemma_market_order_keeps_uncrossed(
                    step.book,
                    taker,
                    (qty - resting.qty) as u128,
                    now,
                );
            }
        },
        None => {},
    }
}

/// The volume of two lists of events is the sum of their volumes.
pub proof fn lemma_volume_add(
    first: Seq<Result<Success, Failed>>,
    second: Seq<Result<Success, Failed>>,
)
    ensures
        volume(first + second) == volume(first) + volume(second),
    decreases second.len(),
{
    if second.len() == 0 {
        assert(first + second =~= first);
    } else {
        assert((first + second).drop_last() =~= first + second.drop_last());
        lemma_volume_add(first, second.drop_last());
    }
}

/// The two events of a matching step report the smaller of the two open
/// quantities each, at the price of the resting order.
proof fn lemma_step_volume(book: BookState, resting: Order, taker: Taker, qty: u128, now: u64)
    ensures
        volume(book.matched(resting, taker, qty, now).events) == 2 * (if qty < resting.qty {
            qty
        } else {
            resting.qty
        }),
        forall|k: int|
            0 <= k < book.matched(resting, taker, qty, now).events.len() ==> fill_price(
                #[trigger] book.matched(resting, taker, qty, now).events[k],
            ) == Some(resting.price),
{
    let events = book.matched(resting, taker, qty, now).events;
    reveal_with_fuel(volume, 3);
    assert(events.len() == 2);
    assert(events.drop_last().len() == 1);
    assert(events.drop_last().drop_last().len() == 0);
    assert(events.drop_last().last() == events[0]);
    assert(events.last() == events[1]);
}

/// A limit order is accounted for. What its events report as traded is
/// twice what was filled of it, once for each side of every trade. Not more
/// is filled than was ordered, and no trade is made at a worse price than
/// the limit. Where all of it is filled, the queue of its own side is as it
/// was; else what is left comes to rest there at the limit price, unless the
/// queue holds its id already.
pub proof fn lemma_limit_order_is_accounted(
    book: BookState,
    taker: Taker,
    price: u128,
    qty: u128,
    ts: u64,
    now: u64,
)
    requires
        book.wf(),
        qty > 0,
    ensures
        ({
            let out = book.limit_filled(taker, price, qty, ts, now);
            let filled = volume(out.events) / 2;
            &&& volume(out.events) == 2 * filled
            &&& filled <= qty
            &&& within_limit(out.events, taker.side, price)
            &&& filled == qty ==> out.book.queue(taker.side) == book.queue(taker.side)
            &&& filled < qty ==> out.book.queue(taker.side) == book.queue(taker.side).inserted(
                taker.order_id,
                price,
                (qty - filled) as u128,
                ts,
                rest_of(taker, price, (qty - filled) as u128),
            )
        }),
    decreases book.queue(taker.side.opposite()).index.len(),
{
    let opposite = taker.side.opposite();
    let q = book.queue(opposite);
    let looked = book.looked(opposite);
    let out = book.limit_filled(taker, price, qty, ts, now);
    lemma_looked(book, opposite);
    lemma_settled_index(q.index, q.orders.dom());
    lemma_settled_index(q.settled_index(), q.orders.dom());
    assert(looked.queue(taker.side) == book.queue(taker.side));
    match q.top() {
        Some(resting) => {
            if BookState::crosses(taker.side, price, resting) {
                lemma_matched_step(looked, resting, taker, qty, now);
                lemma_step_volume(looked, resting, taker, qty, now);
                let step = looked.matched(resting, taker, qty, now);
                if !step.complete {
                    let left = (qty - resting.qty) as u128;
                    lemma_limit_order_is_accounted(step.book, taker, price, left, ts, now);
                    let rest = step.book.limit_filled(taker, price, left, ts, now);
                    lemma_volume_add(step.events, rest.events);
                    assert forall|k: int| 0 <= k < out.events.len() implies match fill_price(
                        #[trigger] out.events[k],
                    ) {
                        Some(p) => match taker.side {
                            OrderSide::Bid => p <= price,
                            OrderSide::Ask => p >= price,
                        },
                        None => true,
                    } by {
                        if k < step.events.len() {
                            assert(out.events[k] == step.events[k]);
                        } else {
                            assert(out.events[k] == rest.events[k - step.events.len()]);
                        }
                    }
                }
            } else {
                assert(volume(out.events) == 0) by {
                    reveal_with_fuel(volume, 2);
                    if out.events.len() > 0 {
                        assert(out.events.len() == 1);
                        assert(out.events.drop_last().len() == 0);
                    }
                }
            }
        },
        None => {
            assert(volume(out.events) == 0) by {
                reveal_with_fuel(volume, 2);
                if out.events.len() > 0 {
                    assert(out.events.len() == 1);
                    assert(out.events.drop_last().len() == 0);
                }
            }
        },
    }
}

/// A market order is accounted for. What its events report as traded is
/// twice what was filled of it, and not more is filled than was ordered.
/// It ends in `NoMatch` exactly where less is filled than was ordered, and
/// then the opposite side has no order left. The queue of its own side is
/// as it was.
pub proof fn lemma_market_order_is_accounted(book: BookState, taker: Taker, qty: u128, now: u64)
    requires
        book.wf(),
        qty > 0,
    ensures
        ({
            let out = book.market_filled(taker, qty, now);
            let filled = volume(out.events) / 2;
            &&& volume(out.events) == 2 * filled
            &&& filled <= qty
            &&& out.events.len() > 0
            &&& (out.events.last() == Err::<Success, Failed>(Failed::NoMatch(taker.order_id)))
                <==> filled < qty
            &&& filled < qty ==> out.book.queue(taker.side.opposite()).top() is None
            &&& out.book.queue(taker.side) == book.queue(taker.side)
        }),
    decreases book.queue(taker.side.opposite()).index.len(),
{
    let opposite = taker.side.opposite();
    let q = book.queue(opposite);
    let looked = book.looked(opposite);
    let out = book.market_filled(taker, qty, now);
    lemma_looked(book, opposite);
    lemma_settled_index(q.index, q.orders.dom());
    lemma_settled_index(q.settled_index(), q.orders.dom());
    assert(looked.queue(taker.side) == book.queue(taker.side));
    match q.top() {
        Some(resting) => {
            lemma_matched_step(looked, resting, taker, qty, now);
            lemma_step_volume(looked, resting, taker, qty, now);
            let step = looked.matched(resting, taker, qty, now);
            if !step.complete {
                let left = (qty - resting.qty) as u128;
                lemma_market_order_is_accounted(step.book, taker, left, now);
                let rest = step.book.market_filled(taker, left, now);
                lemma_volume_add(step.events, rest.events);
                assert(out.events.last() == rest.events.last());
            } else {
                assert(out.events.last() == step.events[1]);
            }
        },
        None => {
            reveal_with_fuel(volume, 2);
            assert(out.events.len() == 1);
            assert(out.events.drop_last().len() == 0);
        },
    }
}

/// The spread is made of the best prices. A book has a spread exactly if
/// both sides hold an order; the spread then names the highest price of a
/// resting bid and the lowest price of a resting ask.
pub proof fn lemma_spread_is_best(book: BookState, bid: int, ask: int)
    requires
        book.wf(),
    ensures
        book.spread() is None <==> (book.bids.orders.dom() =~= Set::<u64>::empty()
            || book.asks.orders.dom() =~= Set::<u64>::empty()),
        match book.spread() {
            Some((best_bid, best_ask)) => {
                &&& 0 <= bid < book.bids.index.len() && book.bids.orders.contains_key(
                    book.bids.index[bid].id,
                ) ==> book.bids.orders[book.bids.index[bid].id].price <= best_bid
                &&& 0 <= ask < book.asks.index.len() && book.asks.orders.contains_key(
                    book.asks.index[ask].id,
                ) ==> book.asks.orders[book.asks.index[ask].id].price >= best_ask
            },
            None => true,
        },
{
    lemma_top_none_iff_empty(book.bids);
    lemma_top_none_iff_empty(book.asks);
    if 0 <= bid < book.bids.index.len() && book.bids.orders.contains_key(book.bids.index[bid].id) {
        lemma_top_price_is_best(book, OrderSide::Bid, bid);
    }
    if 0 <= ask < book.asks.index.len() && book.asks.orders.contains_key(book.asks.index[ask].id) {
        lemma_top_price_is_best(book, OrderSide::Ask, ask);
    }
}

/// The book of one asset pair.
pub struct Orderbook {
    order_asset: String,
    price_asset: String,
    bid_queue: OrderQueue<Order>,
    ask_queue: OrderQueue<Order>,
    seq: TradeSequence,
    order_validator: OrderRequestValidator,
}

impl View for Orderbook {
    type V = BookState;

    closed spec fn view(&self) -> BookState {
        BookState {
            order_asset: self.order_asset,
            price_asset: self.price_asset,
            bids: self.bid_queue@,
            asks: self.ask_queue@,
            next_id: self.seq.upcoming(),
            first_id: self.seq.lo(),
            last_id: self.seq.hi(),
            checked_order_asset: self.order_validator.order_asset(),
            checked_price_asset: self.order_validator.price_asset(),
        }
    }
}

impl Clone for Orderbook {
    fn clone(&self) -> (copy: Self)
        ensures
            copy@ == self@,
    {
        Orderbook {
            order_asset: self.order_asset.clone(),
            price_asset: self.price_asset.clone(),
            bid_queue: self.bid_queue.clone(),
            ask_queue: self.ask_queue.clone(),
            seq: self.seq,
            order_validator: self.order_validator.clone(),
        }
    }
}

impl Orderbook {
    /// The invariant that every method keeps.
    pub open spec fn wf(&self) -> bool {
        self@.wf()
    }

    /// What the empty book of an asset pair holds.
    pub open spec fn fresh(order_asset: String, price_asset: String) -> BookState {
        BookState {
            order_asset,
            price_asset,
            bids: QueueState::fresh(OrderSide::Bid, MAX_STALLED_INDICES_IN_QUEUE),
            asks: QueueState::fresh(OrderSide::Ask, MAX_STALLED_INDICES_IN_QUEUE),
            next_id: MIN_SEQUENCE_ID,
            first_id: MIN_SEQUENCE_ID,
            last_id: MAX_SEQUENCE_ID,
            checked_order_asset: order_asset@,
            checked_price_asset: price_asset@,
        }
    }

    /// The empty book that trades `order_asset` against `price_asset`.
    pub fn new(order_asset: String, price_asset: String) -> (book: Self)
        ensures
            book.wf(),
            book@ == Self::fresh(order_asset, price_asset),
    {
        Orderbook {
            order_asset: order_asset.clone(),
            price_asset: price_asset.clone(),
            bid_queue: OrderQueue::new(
                OrderSide::Bid,
                MAX_STALLED_INDICES_IN_QUEUE,
                ORDER_QUEUE_INIT_CAPACITY,
            ),
            ask_queue: OrderQueue::new(
                OrderSide::Ask,
                MAX_STALLED_INDICES_IN_QUEUE,
                ORDER_QUEUE_INIT_CAPACITY,
            ),
            seq: new_sequence_gen(MIN_SEQUENCE_ID, MAX_SEQUENCE_ID),
            order_validator: OrderRequestValidator::new(order_asset, price_asset),
        }
    }

    /// Whether every resting order of `queue` is what its key ranks.
    pub fn check_keys(queue: &OrderQueue<Order>) -> (ok: bool)
        ensures
            ok == keyed(queue@),
    {
        let live = queue.live_index();
        let side = queue.side();
        proof {
            lemma_live_entries(queue@);
        }
        let mut i: usize = 0;
        while i < live.len()
            invariant
                i <= live@.len(),
                side == queue@.side,
                live@ == queue@.index.filter(live_in(queue@.orders.dom())),
                forall|k: int|
                    0 <= k < live@.len() ==> queue@.index.contains(#[trigger] live@[k])
                        && queue@.orders.contains_key(live@[k].id),
                forall|k: int|
                    0 <= k < i ==> matches_key(
                        queue@.orders[(#[trigger] live@[k]).id],
                        live@[k],
                        side,
                    ),
            decreases live@.len() - i,
        {
            let entry = live[i];
            let good = match queue.get(entry.id) {
                Some(order) => {
                    let same_side = match (order.side, side) {
                        (OrderSide::Bid, OrderSide::Bid) => true,
                        (OrderSide::Ask, OrderSide::Ask) => true,
                        _ => false,
                    };
                    order.order_id == entry.id && same_side && order.price == entry.price
                        && order.qty > 0
                },
                None => false,
            };
            if !good {
                proof {
                    let j = choose|j: int| 0 <= j < queue@.index.len() && queue@.index[j] == entry;
                    assert(queue@.orders.contains_key(queue@.index[j].id));
                }
                return false;
            }
            i = i + 1;
        }
        proof {
            assert forall|j: int|
                0 <= j < queue@.index.len() && queue@.orders.contains_key(
                    (#[trigger] queue@.index[j]).id,
                ) implies matches_key(
                queue@.orders[queue@.index[j].id],
                queue@.index[j],
                queue@.side,
            ) by {
                assert(live@.contains(queue@.index[j]));
                let k = choose|k: int| 0 <= k < live@.len() && live@[k] == queue@.index[j];
                assert(matches_key(queue@.orders[live@[k].id], live@[k], side));
            }
        }
        true
    }

    /// The book that trades `order_asset` against `price_asset`, holds the
    /// given queues and hands out `next_id` next. `None` unless the queues
    /// are those of the bids and the asks, every resting order is what its
    /// key ranks, and `next_id` is an id that a book hands out.
    pub fn from_parts(
        order_asset: String,
        price_asset: String,
        next_id: u64,
        bid_queue: OrderQueue<Order>,
        ask_queue: OrderQueue<Order>,
    ) -> (book: Option<Self>)
        requires
            bid_queue.wf(),
            ask_queue.wf(),
        ensures
            match book {
                Some(made) => {
                    &&& made.wf()
                    &&& made@ == (BookState {
                        bids: bid_queue@,
                        asks: ask_queue@,
                        next_id,
                        ..Self::fresh(order_asset, price_asset)
                    })
                },
                None => !(bid_queue@.side == OrderSide::Bid && ask_queue@.side == OrderSide::Ask
                    && MIN_SEQUENCE_ID <= next_id <= MAX_SEQUENCE_ID && keyed(bid_queue@) && keyed(
                    ask_queue@,
                )),
            },
    {
        if !Self::check_keys(&bid_queue) || !Self::check_keys(&ask_queue) {
            return None;
        }
        match bid_queue.side() {
            OrderSide::Bid => {},
            OrderSide::Ask => {
                return None;
            },
        }
        match ask_queue.side() {
            OrderSide::Ask => {},
            OrderSide::Bid => {
                return None;
            },
        }
        match resume_sequence_gen(MIN_SEQUENCE_ID, MAX_SEQUENCE_ID, next_id) {
            Some(seq) => Some(
                Orderbook {
                    order_asset: order_asset.clone(),
                    price_asset: price_asset.clone(),
                    bid_queue,
                    ask_queue,
                    seq,
                    order_validator: OrderRequestValidator::new(order_asset, price_asset),
                },
            ),
            None => None,
        }
    }

    /// The base asset of the book.
    pub fn order_asset(&self) -> (asset: &String)
        ensures
            *asset == self@.order_asset,
    {
        &self.order_asset
    }

    /// The quote asset of the book.
    pub fn price_asset(&self) -> (asset: &String)
        ensures
            *asset == self@.price_asset,
    {
        &self.price_asset
    }

    /// The id that the next new order gets.
    pub fn next_order_id(&self) -> (id: u64)
        ensures
            id == self@.next_id,
    {
        self.seq.peek_id()
    }

    /// The queue of one side.
    pub fn queue(&self, side: OrderSide) -> (queue: &OrderQueue<Order>)
        ensures
            queue@ == self@.queue(side),
    {
        match side {
            OrderSide::Bid => &self.bid_queue,
            OrderSide::Ask => &self.ask_queue,
        }
    }

    /// The resting orders of one side that `creator_id` placed, in the order
    /// in which they are served.
    pub fn get_orders(&self, creator_id: String, side: OrderSide) -> (orders: Vec<Order>)
        ensures
            orders@ == self@.queue(side).resting().filter(created_by(creator_id@)),
    {
        let resting = match side {
            OrderSide::Bid => self.bid_queue.resting_orders(),
            OrderSide::Ask => self.ask_queue.resting_orders(),
        };
        let ghost all = self@.queue(side).resting();
        let ghost wanted = created_by(creator_id@);
        let mut orders: Vec<Order> = Vec::new();
        let mut i: usize = 0;
        proof {
            reveal(Seq::filter);
            assert(all.take(0).filter(wanted) =~= Seq::empty());
        }
        while i < resting.len()
            invariant
                i <= resting@.len(),
                resting@.len() == all.len(),
                forall|k: int| 0 <= k < resting@.len() ==> *resting@[k] == all[k],
                wanted == created_by(creator_id@),
                orders@ == all.take(i as int).filter(wanted),
            decreases resting@.len() - i,
        {
            let order: &Order = resting[i];
            proof {
                assert(all.take(i + 1) =~= all.take(i as int).push(*order));
                all.take(i as int).lemma_filter_push(*order, wanted);
            }
            if order.order_creator == creator_id {
                orders.push(order.clone());
            }
            i = i + 1;
        }
        proof {
            assert(all.take(i as int) =~= all);
        }
        orders
    }

    /// All resting orders of one side, in the order in which they are served.
    pub fn get_side_orders(&self, side: OrderSide) -> (orders: Vec<Order>)
        ensures
            orders@ == self@.queue(side).resting(),
    {
        let resting = match side {
            OrderSide::Bid => self.bid_queue.resting_orders(),
            OrderSide::Ask => self.ask_queue.resting_orders(),
        };
        let mut orders: Vec<Order> = Vec::new();
        let mut i: usize = 0;
        while i < resting.len()
            invariant
                i <= resting@.len(),
                orders@.len() == i,
                forall|k: int| 0 <= k < i ==> orders@[k] == *resting@[k],
            decreases resting@.len() - i,
        {
            orders.push(resting[i].clone());
            i = i + 1;
        }
        assert(orders@ =~= self@.queue(side).resting());
        orders
    }

    /// Whether `after` and `events` are what `request` makes of `before` at
    /// time `now`. A request that breaks a rule changes nothing and reports
    /// the reason as its only event.
    pub open spec fn done(
        before: BookState,
        request: OrderRequest,
        now: u64,
        after: BookState,
        events: Seq<Result<Success, Failed>>,
    ) -> bool {
        match before.refusal(request) {
            Some(reason) => {
                &&& after == before
                &&& events.len() == 1
                &&& events[0] matches Err(Failed::ValidationFailed(text))
                &&& text@ == reason.text()
            },
            None => {
                &&& after == before.processed(request, now)
                    .book
                &&& events == before.processed(request, now).events
            },
        }
    }

    /// Works on one request at time `now`: every event that carries a time
    /// carries `now`.
    pub fn process_order(&mut self, order: OrderRequest, now: u64) -> (events:
        OrderProcessingResult)
        requires
            old(self).wf(),
        ensures
            final(self).wf(),
            Self::done(old(self)@, order, now, final(self)@, events@),
    {
        let mut proc_result: OrderProcessingResult = Vec::new();
        if let Err(reason) = self.order_validator.validate(&order) {
            proc_result.push(Err(Failed::ValidationFailed(reason.message())));
            return proc_result;
        }
        match order {
            OrderRequest::NewMarketOrder {
                order_asset,
                price_asset,
                side,
                qty,
                order_creator,
                ts: _ts,
            } => {
                let order_id = self.seq.next_id();
                proc_result.push(
                    Ok(
                        Success::Accepted {
                            id: order_id,
                            order_type: OrderType::Market,
                            order_creator: order_creator.clone(),
                            ts: now,
                        },
                    ),
                );
                let taker = Taker {
                    order_id,
                    order_asset,
                    price_asset,
                    order_type: OrderType::Market,
                    side,
                    order_creator,
                };
                self.process_market_order(&mut proc_result, taker, qty, now);
            },
            OrderRequest::NewLimitOrder {
                order_asset,
                price_asset,
                side,
                price,
                qty,
                order_creator,
                ts,
            } => {
                let order_id = self.seq.next_id();
                proc_result.push(
                    Ok(
                        Success::Accepted {
                            id: order_id,
                            order_type: OrderType::Limit,
                            order_creator: order_creator.clone(),
                            ts: now,
                        },
                    ),
                );
                let taker = Taker {
                    order_id,
                    order_asset,
                    price_asset,
                    order_type: OrderType::Limit,
                    side,
                    order_creator,
                };
                self.process_limit_order(&mut proc_result, taker, price, qty, ts, now);
            },
            OrderRequest::AmendOrder { id, side, price, qty, ts, order_creator } => {
                self.process_order_amend(&mut proc_result, id, side, price, qty, order_creator, ts, now);
            },
            OrderRequest::CancelOrder { id, side } => {
                self.process_order_cancel(&mut proc_result, id, side, now);
            },
        }
        proc_result
    }

    /// The best bid and the best ask, or `None` unless both sides hold an
    /// order. Stale entries at the top of the queues that it looks at are
    /// dropped; the ask side is looked at only where there is a bid.
    pub fn current_spread(&mut self) -> (spread: Option<(u128, u128)>)
        requires
            old(self).wf(),
        ensures
            final(self).wf(),
            spread == old(self)@.spread(),
            final(self)@ == if old(self)@.bids.top() is Some {
                old(self)@.looked(OrderSide::Bid).looked(OrderSide::Ask)
            } else {
                old(self)@.looked(OrderSide::Bid)
            },
    {
        proof {
            lemma_keyed_peeked(self@.bids);
            lemma_keyed_peeked(self@.asks);
        }
        let bid: u128 = match self.bid_queue.peek() {
            Some(order) => order.price,
            None => {
                return None;
            },
        };
        let ask: u128 = match self.ask_queue.peek() {
            Some(order) => order.price,
            None => {
                return None;
            },
        };
        Some((bid, ask))
    }

    /// The best bid and the best ask, or `None` unless both sides hold an
    /// order. The book is left as it is.
    pub fn best_prices(&self) -> (spread: Option<(u128, u128)>)
        ensures
            spread == self@.spread(),
    {
        let bid: u128 = match self.bid_queue.first() {
            Some(order) => order.price,
            None => {
                return None;
            },
        };
        let ask: u128 = match self.ask_queue.first() {
            Some(order) => order.price,
            None => {
                return None;
            },
        };
        Some((bid, ask))
    }

    /// A copy of the resting order of one side that is stored under `id`.
    pub fn find_order(&self, id: u64, side: OrderSide) -> (order: Option<Order>)
        ensures
            order == (if self@.queue(side).orders.contains_key(id) {
                Some(self@.queue(side).orders[id])
            } else {
                None
            }),
    {
        let found = match side {
            OrderSide::Bid => self.bid_queue.get(id),
            OrderSide::Ask => self.ask_queue.get(id),
        };
        match found {
            Some(order) => Some(order.clone()),
            None => None,
        }
    }

    /// A copy of the order at the top of the queue that `side` trades against.
    fn peek_opposite(&mut self, side: OrderSide) -> (top: Option<Order>)
        requires
            old(self).wf(),
        ensures
            final(self).wf(),
            final(self)@ == old(self)@.looked(side.opposite()),
            top == old(self)@.queue(side.opposite()).top(),
            top is Some ==> final(self)@.queue(side.opposite()).top_is_live()
                && final(self)@.queue(side.opposite()).top() == top,
    {
        proof {
            let queue = old(self)@.queue(side.opposite());
            lemma_settled_index(queue.index, queue.orders.dom());
            lemma_settled_index(queue.settled_index(), queue.orders.dom());
            lemma_keyed_peeked(queue);
        }
        match side {
            OrderSide::Bid => match self.ask_queue.peek() {
                Some(order) => Some(order.clone()),
                None => None,
            },
            OrderSide::Ask => match self.bid_queue.peek() {
                Some(order) => Some(order.clone()),
                None => None,
            },
        }
    }

    /// Matches `qty` of a market order step by step against the opposite
    /// queue. The events are added to `results`.
    pub fn process_market_order(
        &mut self,
        results: &mut OrderProcessingResult,
        taker: Taker,
        qty: u128,
        now: u64,
    )
        requires
            old(self).wf(),
        ensures
            final(self).wf(),
            final(self)@ == old(self)@.market_filled(taker, qty, now).book,
            final(results)@ == old(results)@ + old(self)@.market_filled(taker, qty, now).events,
        decreases old(self)@.queue(taker.side.opposite()).index.len(),
    {
        let ghost before = self@;
        let ghost emitted = results@;
        match self.peek_opposite(taker.side) {
            Some(opposite_order) => {
                let ghost looked = self@;
                let matching_complete = self.order_matching(
                    results,
                    &opposite_order,
                    &taker,
                    qty,
                    now,
                );
                if !matching_complete {
                    proof {
                        let queue = before.queue(taker.side.opposite());
                        lemma_settled_index(queue.index, queue.orders.dom());
                        lemma_settled_index(queue.settled_index(), queue.orders.dom());
                    }
                    let ghost step = looked.matched(opposite_order, taker, qty, now);
                    self.process_market_order(results, taker, qty - opposite_order.qty, now);
                    proof {
                        let rest = step.book.market_filled(
                            taker,
                            (qty - opposite_order.qty) as u128,
                            now,
                        );
                        assert(results@ =~= emitted + (step.events + rest.events));
                    }
                }
            },
            None => {
                results.push(Err(Failed::NoMatch(taker.order_id)));
                assert(results@ =~= emitted + seq![Err(Failed::NoMatch(taker.order_id))]);
            },
        }
    }

    /// Matches `qty` of a limit order step by step while the prices cross,
    /// and lets what is left of it rest. The events are added to `results`.
    pub fn process_limit_order(
        &mut self,
        results: &mut OrderProcessingResult,
        taker: Taker,
        price: u128,
        qty: u128,
        ts: u64,
        now: u64,
    )
        requires
            old(self).wf(),
            qty > 0,
        ensures
            final(self).wf(),
            final(self)@ == old(self)@.limit_filled(taker, price, qty, ts, now).book,
            final(results)@ == old(results)@ + old(self)@.limit_filled(
                taker,
                price,
                qty,
                ts,
                now,
            ).events,
        decreases old(self)@.queue(taker.side.opposite()).index.len(),
    {
        let ghost before = self@;
        let ghost emitted = results@;
        match self.peek_opposite(taker.side) {
            Some(opposite_order) => {
                let could_be_matched = match taker.side {
                    OrderSide::Bid => price >= opposite_order.price,
                    OrderSide::Ask => price <= opposite_order.price,
                };
                if could_be_matched {
                    let ghost looked = self@;
                    let matching_complete = self.order_matching(
                        results,
                        &opposite_order,
                        &taker,
                        qty,
                        now,
                    );
                    if !matching_complete {
                        proof {
                            let queue = before.queue(taker.side.opposite());
                            lemma_settled_index(queue.index, queue.orders.dom());
                            lemma_settled_index(queue.settled_index(), queue.orders.dom());
                        }
                        let ghost step = looked.matched(opposite_order, taker, qty, now);
                        self.process_limit_order(
                            results,
                            taker,
                            price,
                            qty - opposite_order.qty,
                            ts,
                            now,
                        );
                        proof {
                            let rest = step.book.limit_filled(
                                taker,
                                price,
                                (qty - opposite_order.qty) as u128,
                                ts,
                                now,
                            );
                            assert(results@ =~= emitted + (step.events + rest.events));
                        }
                    }
                } else {
                    self.store_new_limit_order(results, taker, price, qty, ts);
                }
            },
            None => {
                self.store_new_limit_order(results, taker, price, qty, ts);
            },
        }
    }

    /// Replaces a resting order and reports whether it was found.
    pub fn process_order_amend(
        &mut self,
        results: &mut OrderProcessingResult,
        order_id: u64,
        side: OrderSide,
        price: u128,
        qty: u128,
        order_creator: String,
        ts: u64,
        now: u64,
    )
        requires
            old(self).wf(),
            qty > 0,
        ensures
            final(self).wf(),
            final(self)@ == old(self)@.amend_processed(
                order_id,
                side,
                price,
                qty,
                order_creator,
                ts,
                now,
            ).book,
            final(results)@ == old(results)@ + old(self)@.amend_processed(
                order_id,
                side,
                price,
                qty,
                order_creator,
                ts,
                now,
            ).events,
    {
        let order = Order {
            order_id,
            order_asset: self.order_asset.clone(),
            price_asset: self.price_asset.clone(),
            side,
            price,
            qty,
            order_creator,
        };
        proof {
            let queue = self@.queue(side);
            if queue.orders.contains_key(order_id) {
                lemma_keyed_reindexed(queue, order_id, price, qty, ts, order);
            }
        }
        let amended = match side {
            OrderSide::Bid => self.bid_queue.amend(order_id, price, qty, ts, order),
            OrderSide::Ask => self.ask_queue.amend(order_id, price, qty, ts, order),
        };
        if amended {
            results.push(Ok(Success::Amended { id: order_id, price, qty, ts: now }));
            assert(results@ =~= old(results)@ + seq![
                Ok(Success::Amended { id: order_id, price, qty, ts: now }),
            ]);
        } else {
            results.push(Err(Failed::OrderNotFound(order_id)));
            assert(results@ =~= old(results)@ + seq![Err(Failed::OrderNotFound(order_id))]);
        }
    }

    /// Cancels a resting order and reports whether it was found.
    pub fn process_order_cancel(
        &mut self,
        results: &mut OrderProcessingResult,
        order_id: u64,
        side: OrderSide,
        now: u64,
    )
        requires
            old(self).wf(),
        ensures
            final(self).wf(),
            final(self)@ == old(self)@.cancel_processed(order_id, side, now).book,
            final(results)@ == old(results)@ + old(self)@.cancel_processed(
                order_id,
                side,
                now,
            ).events,
    {
        proof {
            lemma_keyed_cancelled(self@.queue(side), order_id);
        }
        let cancelled = match side {
            OrderSide::Bid => self.bid_queue.cancel(order_id),
            OrderSide::Ask => self.ask_queue.cancel(order_id),
        };
        if cancelled {
            results.push(Ok(Success::Cancelled { id: order_id, ts: now }));
            assert(results@ =~= old(results)@ + seq![
                Ok(Success::Cancelled { id: order_id, ts: now }),
            ]);
        } else {
            results.push(Err(Failed::OrderNotFound(order_id)));
            assert(results@ =~= old(results)@ + seq![Err(Failed::OrderNotFound(order_id))]);
        }
    }

    /// Lets what is left of a limit order rest in the queue of its side.
    pub fn store_new_limit_order(
        &mut self,
        results: &mut OrderProcessingResult,
        taker: Taker,
        price: u128,
        qty: u128,
        ts: u64,
    )
        requires
            old(self).wf(),
            qty > 0,
        ensures
            final(self).wf(),
            final(self)@ == old(self)@.stored(taker, price, qty, ts).book,
            final(results)@ == old(results)@ + old(self)@.stored(taker, price, qty, ts).events,
    {
        let order_id = taker.order_id;
        let side = taker.side;
        let order = Order {
            order_id,
            order_asset: taker.order_asset,
            price_asset: taker.price_asset,
            side,
            price,
            qty,
            order_creator: taker.order_creator,
        };
        proof {
            let queue = self@.queue(side);
            if !queue.orders.contains_key(order_id) {
                lemma_keyed_reindexed(queue, order_id, price, qty, ts, order);
            }
        }
        let added = match side {
            OrderSide::Bid => self.bid_queue.insert(order_id, price, qty, ts, order),
            OrderSide::Ask => self.ask_queue.insert(order_id, price, qty, ts, order),
        };
        if !added {
            results.push(Err(Failed::DuplicateOrderID(order_id)));
            assert(results@ =~= old(results)@ + seq![Err(Failed::DuplicateOrderID(order_id))]);
        } else {
            assert(results@ =~= old(results)@ + Seq::empty());
        }
    }

    /// One matching step of `qty` of `taker` against `opposite_order`, the
    /// order at the top of the opposite queue, which has to be settled. The
    /// two events of the step are added to `results`. Returns whether the
    /// incoming order is filled.
    pub fn order_matching(
        &mut self,
        results: &mut OrderProcessingResult,
        opposite_order: &Order,
        taker: &Taker,
        qty: u128,
        now: u64,
    ) -> (complete: bool)
        requires
            old(self).wf(),
            old(self)@.queue(taker.side.opposite()).top_is_live(),
            old(self)@.queue(taker.side.opposite()).top() == Some(*opposite_order),
        ensures
            final(self).wf(),
            final(self)@ == old(self)@.matched(*opposite_order, *taker, qty, now).book,
            final(results)@ == old(results)@ + old(self)@.matched(
                *opposite_order,
                *taker,
                qty,
                now,
            ).events,
            complete == old(self)@.matched(*opposite_order, *taker, qty, now).complete,
    {
        let ghost step = self@.matched(*opposite_order, *taker, qty, now);
        proof {
            let queue = self@.queue(taker.side.opposite());
            assert(queue.settled_index() == queue.index);
            lemma_keyed_popped(queue);
            if qty < opposite_order.qty {
                lemma_keyed_modified(
                    queue,
                    Order {
                        order_id: opposite_order.order_id,
                        order_asset: taker.order_asset,
                        price_asset: taker.price_asset,
                        side: opposite_order.side,
                        price: opposite_order.price,
                        qty: (opposite_order.qty - qty) as u128,
                        order_creator: opposite_order.order_creator,
                    },
                );
            }
        }
        if qty < opposite_order.qty {
            results.push(
                Ok(
                    Success::Filled {
                        order_id: taker.order_id,
                        side: taker.side,
                        order_type: taker.order_type,
                        price: opposite_order.price,
                        qty,
                        order_creator: taker.order_creator.clone(),
                        ts: now,
                    },
                ),
            );
            results.push(
                Ok(
                    Success::PartiallyFilled {
                        order_id: opposite_order.order_id,
                        side: opposite_order.side,
                        order_type: OrderType::Limit,
                        price: opposite_order.price,
                        qty,
                        order_creator: opposite_order.order_creator.clone(),
                        ts: now,
                    },
                ),
            );
            let left = Order {
                order_id: opposite_order.order_id,
                order_asset: taker.order_asset.clone(),
                price_asset: taker.price_asset.clone(),
                side: opposite_order.side,
                price: opposite_order.price,
                qty: opposite_order.qty - qty,
                order_creator: opposite_order.order_creator.clone(),
            };
            match taker.side {
                OrderSide::Bid => {
                    self.ask_queue.modify_current_order(left);
                },
                OrderSide::Ask => {
                    self.bid_queue.modify_current_order(left);
                },
            }
            assert(results@ =~= old(results)@ + step.events);
            true
        } else if qty > opposite_order.qty {
            results.push(
                Ok(
                    Success::PartiallyFilled {
                        order_id: taker.order_id,
                        side: taker.side,
                        order_type: taker.order_type,
                        price: opposite_order.price,
                        qty: opposite_order.qty,
                        order_creator: taker.order_creator.clone(),
                        ts: now,
                    },
                ),
            );
            results.push(
                Ok(
                    Success::Filled {
                        order_id: opposite_order.order_id,
                        side: opposite_order.side,
                        order_type: OrderType::Limit,
                        price: opposite_order.price,
                        qty: opposite_order.qty,
                        order_creator: opposite_order.order_creator.clone(),
                        ts: now,
                    },
                ),
            );
            match taker.side {
                OrderSide::Bid => {
                    self.ask_queue.pop();
                },
                OrderSide::Ask => {
                    self.bid_queue.pop();
                },
            }
            assert(results@ =~= old(results)@ + step.events);
            false
        } else {
            results.push(
                Ok(
                    Success::Filled {
                        order_id: taker.order_id,
                        side: taker.side,
                        order_type: taker.order_type,
                        price: opposite_order.price,
                        qty,
                        order_creator: taker.order_creator.clone(),
                        ts: now,
                    },
                ),
            );
            results.push(
                Ok(
                    Success::Filled {
                        order_id: opposite_order.order_id,
                        side: opposite_order.side,
                        order_type: OrderType::Limit,
                        price: opposite_order.price,
                        qty,
                        order_creator: opposite_order.order_creator.clone(),
                        ts: now,
                    },
                ),
            );
            match taker.side {
                OrderSide::Bid => {
                    self.ask_queue.pop();
                },
                OrderSide::Ask => {
                    self.bid_queue.pop();
                },
            }
            assert(results@ =~= old(results)@ + step.events);
            true
        }
    }
}

} // verus!
