//! Requests that a book accepts.

use crate::domain::OrderSide;
use vstd::prelude::*;

verus! {

/// One request to a book.
#[derive(Debug)]
pub enum OrderRequest {
    NewMarketOrder {
        order_asset: String,
        price_asset: String,
        side: OrderSide,
        qty: u128,
        order_creator: String,
        ts: u64,
    },
    NewLimitOrder {
        order_asset: String,
        price_asset: String,
        side: OrderSide,
        /// Limit price in ticks.
        price: u128,
        qty: u128,
        order_creator: String,
        ts: u64,
    },
    AmendOrder {
        id: u64,
        side: OrderSide,
        /// New limit price in ticks.
        price: u128,
        qty: u128,
        ts: u64,
        order_creator: String,
    },
    CancelOrder { id: u64, side: OrderSide },
}

/// The request for a new market order.
pub fn new_market_order_request(
    order_asset: String,
    price_asset: String,
    side: OrderSide,
    qty: u128,
    order_creator: String,
    ts: u64,
) -> (request: OrderRequest)
    ensures
        request == (OrderRequest::NewMarketOrder {
            order_asset,
            price_asset,
            side,
            qty,
            order_creator,
            ts,
        }),
{
    OrderRequest::NewMarketOrder { order_asset, price_asset, qty, side, order_creator, ts }
}

/// The request for a new limit order.
pub fn new_limit_order_request(
    order_asset: String,
    price_asset: String,
    side: OrderSide,
    price: u128,
    qty: u128,
    order_creator: String,
    ts: u64,
) -> (request: OrderRequest)
    ensures
        request == (OrderRequest::NewLimitOrder {
            order_asset,
            price_asset,
            side,
            price,
            qty,
            order_creator,
            ts,
        }),
{
    OrderRequest::NewLimitOrder { order_asset, price_asset, side, price, qty, order_creator, ts }
}

/// The request that changes price and quantity of a resting limit order.
///
/// The side of an order cannot be amended: cancel it and place a new one.
pub fn amend_order_request(
    id: u64,
    side: OrderSide,
    price: u128,
    qty: u128,
    ts: u64,
    order_creator: String,
) -> (request: OrderRequest)
    ensures
        request == (OrderRequest::AmendOrder { id, side, price, qty, ts, order_creator }),
{
    OrderRequest::AmendOrder { id, side, price, qty, ts, order_creator }
}

/// The request that cancels a resting limit order.
pub fn limit_order_cancel_request(order_id: u64, side: OrderSide) -> (request: OrderRequest)
    ensures
        request == (OrderRequest::CancelOrder { id: order_id, side }),
{
    OrderRequest::CancelOrder { id: order_id, side }
}

} // verus!
