//! A price-time priority matching engine and the multi-token ledger that
//! settles its matches.
//!
//! `order_queues` holds the resting orders of one side of a book,
//! `orderbook` matches incoming orders against them, `ledger` states the
//! rules of a transfer, `settlement` says what the fills of a book do to the
//! ledger, and `contract` ties books and ledger together into an exchange. Prices are whole numbers of ticks and amounts are unsigned
//! 128-bit integers. What cannot be done is refused with a reason. The calls
//! into the host runtime stand in `host`.

pub mod account;
pub mod ballot;
pub mod contract;
pub mod domain;
pub mod host;
pub mod ledger;
pub mod order_queues;
pub mod orderbook;
pub mod orders;
pub mod request;
pub mod sequence;
pub mod settlement;
pub mod table;
pub mod token;
pub mod validation;
pub mod wallet;
