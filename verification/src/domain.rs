//! The vocabulary of the engine: sides, order kinds and resting orders.

use vstd::prelude::*;

verus! {

/// Number of price ticks that make one unit of the quote asset.
///
/// A price is a whole number of ticks, so a price of `125` stands for 1.25
/// units of the quote asset per unit of the base asset.
pub const PRICE_SCALE: u128 = 100;

/// Side of the book that an order belongs to.
#[derive(Debug, Copy, Clone, PartialEq, Eq, Structural)]
pub enum OrderSide {
    Bid,
    Ask,
}

impl OrderSide {
    /// The side that an order of this side trades against.
    pub open spec fn opposite(self) -> OrderSide {
        match self {
            OrderSide::Bid => OrderSide::Ask,
            OrderSide::Ask => OrderSide::Bid,
        }
    }

    /// The side that an order of this side trades against.
    pub fn other(self) -> (side: OrderSide)
        ensures
            side == self.opposite(),
    {
        match self {
            OrderSide::Bid => OrderSide::Ask,
            OrderSide::Ask => OrderSide::Bid,
        }
    }
}

impl Default for OrderSide {
    fn default() -> (side: Self)
        ensures
            side == OrderSide::Bid,
    {
        OrderSide::Bid
    }
}

/// Whether an order carries a limit price.
#[derive(Debug, Copy, Clone, PartialEq, Eq, Structural)]
pub enum OrderType {
    Market,
    Limit,
}

impl Default for OrderType {
    fn default() -> (kind: Self)
        ensures
            kind == OrderType::Market,
    {
        OrderType::Market
    }
}

/// A limit order at rest in a queue.
#[derive(Debug)]
pub struct Order {
    pub order_id: u64,
    pub order_asset: String,
    pub price_asset: String,
    pub side: OrderSide,
    /// Limit price in ticks.
    pub price: u128,
    /// Quantity of the base asset that is still open.
    pub qty: u128,
    pub order_creator: String,
}

impl Clone for Order {
    fn clone(&self) -> (copy: Self)
        ensures
            copy == *self,
    {
        Order {
            order_id: self.order_id,
            order_asset: self.order_asset.clone(),
            price_asset: self.price_asset.clone(),
            side: self.side,
            price: self.price,
            qty: self.qty,
            order_creator: self.order_creator.clone(),
        }
    }
}

impl Default for Order {
    fn default() -> (order: Self)
        ensures
            order.order_id == 0,
            order.order_asset@ == Seq::<char>::empty(),
            order.price_asset@ == Seq::<char>::empty(),
            order.side == OrderSide::Bid,
            order.price == 0,
            order.qty == 0,
            order.order_creator@ == Seq::<char>::empty(),
    {
        Order {
            order_id: 0,
            order_asset: String::new(),
            price_asset: String::new(),
            side: OrderSide::Bid,
            price: 0,
            qty: 0,
            order_creator: String::new(),
        }
    }
}

} // verus!
