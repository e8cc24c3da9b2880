use near_sdk::{MockedBlockchain, RuntimeFeesConfig, VMConfig, VMContext};
use orderbook::domain::{OrderSide, OrderType};
use orderbook::host::get_current_time as host_time;
use orderbook::orderbook::{Failed, Orderbook, Success};
use orderbook::orders;
use orderbook::order_queues::{OrderIndex, OrderQueue};
use orderbook::sequence::{new_sequence_gen, resume_sequence_gen};
use orderbook::validation::{OrderRequestValidator, ValidationError};
use std::time::SystemTime;

fn carol() -> String {
    "carol.near".to_string()
}
fn alice() -> String {
    "alice.near".to_string()
}
fn bob() -> String {
    "bob.near".to_string()
}

fn get_context(predecessor_account_id: String, block_timestamp: u64) -> VMContext {
    VMContext {
        current_account_id: alice(),
        signer_account_id: bob(),
        signer_account_pk: vec![0, 1, 2],
        predecessor_account_id,
        input: vec![],
        block_index: 0,
        block_timestamp,
        account_balance: 100,
        account_locked_balance: 0,
        storage_usage: 10u64.pow(6),
        attached_deposit: 0,
        prepaid_gas: 10u64.pow(18),
        random_seed: vec![0, 1, 2],
        is_view: false,
        output_data_receivers: vec![],
        epoch_height: 0,
    }
}

/// Puts a host with the given context behind the calls that the library
/// makes.
fn testing_env(context: VMContext) {
    near_sdk::env::set_blockchain_interface(Box::new(MockedBlockchain::new(
        context,
        VMConfig::default(),
        RuntimeFeesConfig::default(),
        vec![],
        Default::default(),
        Default::default(),
        None,
    )));
}

/// Price in ticks of a price in units.
fn ticks(price: f64) -> u128 {
    (price * 100.0).round() as u128
}

fn get_current_time() -> u64 {
    let duration_since_epoch = SystemTime::now()
        .duration_since(SystemTime::UNIX_EPOCH)
        .unwrap();
    let timestamp_nanos = duration_since_epoch.as_nanos();
    timestamp_nanos as u64
}

fn btc() -> String {
    "BTC".to_string()
}

fn usd() -> String {
    "USD".to_string()
}

fn limit(book: &mut Orderbook, side: OrderSide, price: u128, qty: u128, who: &str, now: u64) -> Vec<Result<Success, Failed>> {
    book.process_order(
        orders::new_limit_order_request(btc(), usd(), side, price, qty, who.to_string(), now),
        now,
    )
}

fn market(book: &mut Orderbook, side: OrderSide, qty: u128, who: &str, now: u64) -> Vec<Result<Success, Failed>> {
    book.process_order(
        orders::new_market_order_request(btc(), usd(), side, qty, who.to_string(), now),
        now,
    )
}

/// What a fill event says: whether the order is filled whole, its id, its
/// kind, the price and the quantity of the trade.
fn fill(event: &Result<Success, Failed>) -> (bool, u64, OrderType, u128, u128) {
    match event {
        Ok(Success::Filled { order_id, order_type, price, qty, .. }) => {
            (true, *order_id, *order_type, *price, *qty)
        }
        Ok(Success::PartiallyFilled { order_id, order_type, price, qty, .. }) => {
            (false, *order_id, *order_type, *price, *qty)
        }
        other => panic!("no fill: {:?}", other),
    }
}

#[test]
fn get_orders() {
    testing_env(get_context(carol(), 0));
    let mut orderbook = Orderbook::new("BTC".to_string(), "USD".to_string());
    let request = orders::new_limit_order_request(
        "BTC".to_string(),
        "USD".to_string(),
        OrderSide::Bid,
        ticks(2.5),
        40,
        "lena".to_string(),
        get_current_time(),
    );

    orderbook.process_order(request, near_sdk::env::block_timestamp());
    let request = orders::new_limit_order_request(
        "BTC".to_string(),
        "USD".to_string(),
        OrderSide::Bid,
        ticks(5.5),
        45,
        "lena".to_string(),
        get_current_time(),
    );

    orderbook.process_order(request, near_sdk::env::block_timestamp());
    let request = orders::new_limit_order_request(
        "BTC".to_string(),
        "USD".to_string(),
        OrderSide::Bid,
        ticks(4.5),
        50,
        "123".to_string(),
        get_current_time(),
    );

    orderbook.process_order(request, near_sdk::env::block_timestamp());
    let ord = orderbook.get_orders("123".to_string(), OrderSide::Bid);
    assert_eq!(ord.len(), 1);
    assert_eq!(ord.last().unwrap().qty, 50);

    let ord = orderbook.get_orders("lena".to_string(), OrderSide::Bid);
    assert_eq!(ord.len(), 2);
    assert_eq!(ord.last().unwrap().qty, 40);
    assert_eq!(ord.first().unwrap().qty, 45);
}

#[test]
fn cancel_nonexisting() {
    testing_env(get_context(carol(), 0));
    let mut orderbook = Orderbook::new("BTC".to_string(), "USD".to_string());
    let request = orders::limit_order_cancel_request(1, OrderSide::Bid);
    let mut result = orderbook.process_order(request, near_sdk::env::block_timestamp());

    assert_eq!(result.len(), 1);
    match result.pop().unwrap() {
        Err(_) => (),
        _ => panic!("unexpected events"),
    }
}

#[test]
fn process_order_stamps_the_block_time() {
    testing_env(get_context(carol(), 4242));
    assert_eq!(host_time(), Some(4242));
    let mut book = Orderbook::new(btc(), usd());
    let events = book.process_order(
        orders::new_limit_order_request(
            btc(),
            usd(),
            OrderSide::Ask,
            500,
            10,
            "lena".to_string(),
            7,
        ),
        host_time().unwrap(),
    );
    assert_eq!(events.len(), 1);
    assert!(matches!(
        &events[0],
        Ok(Success::Accepted { id: 1, order_type: OrderType::Limit, order_creator, ts: 4242 })
            if order_creator == "lena"
    ));
}

#[test]
fn sequence_wraps_to_its_lower_end() {
    let mut seq = new_sequence_gen(3, 5);
    assert_eq!(seq.next_id(), 3);
    assert_eq!(seq.next_id(), 4);
    assert_eq!(seq.next_id(), 5);
    assert_eq!(seq.next_id(), 3);
    let mut single = new_sequence_gen(9, 9);
    assert_eq!(single.next_id(), 9);
    assert_eq!(single.next_id(), 9);
}

#[test]
fn book_hands_out_ids_from_one() {
    let mut book = Orderbook::new(btc(), usd());
    for expected in 1..=3u64 {
        let events = limit(&mut book, OrderSide::Bid, 100, 1, "lena", 0);
        assert!(matches!(&events[0], Ok(Success::Accepted { id, .. }) if *id == expected));
    }
}

#[test]
fn validator_names_the_first_broken_rule() {
    let validator = OrderRequestValidator::new(btc(), usd());
    let check = |request| validator.validate(&request);
    assert_eq!(
        check(orders::new_limit_order_request("ETH".to_string(), usd(), OrderSide::Bid, 0, 0, bob(), 0)),
        Err(ValidationError::BadOrderAsset)
    );
    assert_eq!(
        check(orders::new_limit_order_request(btc(), "EUR".to_string(), OrderSide::Bid, 0, 0, bob(), 0)),
        Err(ValidationError::BadPriceAsset)
    );
    assert_eq!(
        check(orders::new_limit_order_request(btc(), usd(), OrderSide::Bid, 0, 0, bob(), 0)),
        Err(ValidationError::BadPriceValue)
    );
    assert_eq!(
        check(orders::new_limit_order_request(btc(), usd(), OrderSide::Bid, 1, 0, bob(), 0)),
        Err(ValidationError::BadQuantityValue)
    );
    assert_eq!(
        check(orders::new_limit_order_request(btc(), usd(), OrderSide::Bid, 1, 1, bob(), 0)),
        Ok(())
    );
    assert_eq!(
        check(orders::new_market_order_request("ETH".to_string(), usd(), OrderSide::Ask, 1, bob(), 0)),
        Err(ValidationError::BadOrderAsset)
    );
    assert_eq!(
        check(orders::new_market_order_request(btc(), usd(), OrderSide::Ask, 0, bob(), 0)),
        Err(ValidationError::BadQuantityValue)
    );
    assert_eq!(
        check(orders::amend_order_request(1, OrderSide::Ask, 0, 1, 0, bob())),
        Err(ValidationError::BadPriceValue)
    );
    assert_eq!(
        check(orders::amend_order_request(1, OrderSide::Ask, 1, 0, 0, bob())),
        Err(ValidationError::BadQuantityValue)
    );
    assert_eq!(check(orders::limit_order_cancel_request(0, OrderSide::Ask)), Ok(()));
    assert_eq!(ValidationError::BadOrderAsset.message(), "bad order asset");
    assert_eq!(ValidationError::BadPriceAsset.message(), "bad price asset");
    assert_eq!(ValidationError::BadPriceValue.message(), "price must be positive");
    assert_eq!(ValidationError::BadQuantityValue.message(), "quantity must be positive");
}

#[test]
fn refused_request_is_the_only_event() {
    let mut book = Orderbook::new(btc(), usd());
    let events = limit(&mut book, OrderSide::Bid, 100, 0, "lena", 0);
    assert_eq!(events.len(), 1);
    assert!(matches!(&events[0], Err(Failed::ValidationFailed(reason)) if reason == "quantity must be positive"));
    // no id was used up
    let events = limit(&mut book, OrderSide::Bid, 100, 1, "lena", 0);
    assert!(matches!(&events[0], Ok(Success::Accepted { id: 1, .. })));
}

#[test]
fn limit_match_with_the_rest_stored() {
    let mut book = Orderbook::new(btc(), usd());
    limit(&mut book, OrderSide::Ask, 500, 100, "maker", 1);
    limit(&mut book, OrderSide::Ask, 600, 200, "maker", 2);
    limit(&mut book, OrderSide::Ask, 1000, 300, "maker", 3);

    let events = limit(&mut book, OrderSide::Bid, 600, 150, "taker", 9);
    assert_eq!(events.len(), 5);
    assert!(matches!(
        &events[0],
        Ok(Success::Accepted { id: 4, order_type: OrderType::Limit, order_creator, ts: 9 })
            if order_creator == "taker"
    ));
    assert_eq!(fill(&events[1]), (false, 4, OrderType::Limit, 500, 100));
    assert_eq!(fill(&events[2]), (true, 1, OrderType::Limit, 500, 100));
    assert_eq!(fill(&events[3]), (true, 4, OrderType::Limit, 600, 50));
    assert_eq!(fill(&events[4]), (false, 2, OrderType::Limit, 600, 50));

    // the resting ask stays on top with what is left of it
    let asks = book.get_side_orders(OrderSide::Ask);
    assert_eq!(asks.len(), 2);
    assert_eq!((asks[0].order_id, asks[0].price, asks[0].qty), (2, 600, 150));
    assert_eq!((asks[1].order_id, asks[1].price, asks[1].qty), (3, 1000, 300));
    assert!(book.get_side_orders(OrderSide::Bid).is_empty());
}

#[test]
fn limit_order_rests_at_its_own_price_when_the_book_runs_dry() {
    let mut book = Orderbook::new(btc(), usd());
    limit(&mut book, OrderSide::Ask, 500, 100, "maker", 1);
    let events = limit(&mut book, OrderSide::Bid, 700, 130, "taker", 9);
    assert_eq!(events.len(), 3);
    assert_eq!(fill(&events[1]), (false, 2, OrderType::Limit, 500, 100));
    assert_eq!(fill(&events[2]), (true, 1, OrderType::Limit, 500, 100));
    let bids = book.get_side_orders(OrderSide::Bid);
    assert_eq!(bids.len(), 1);
    assert_eq!((bids[0].order_id, bids[0].price, bids[0].qty), (2, 700, 30));
    assert_eq!(bids[0].order_creator, "taker");
    assert_eq!(bids[0].order_asset, "BTC");
    assert_eq!(bids[0].price_asset, "USD");
    assert!(book.get_side_orders(OrderSide::Ask).is_empty());
}

#[test]
fn limit_order_that_does_not_cross_rests() {
    let mut book = Orderbook::new(btc(), usd());
    limit(&mut book, OrderSide::Ask, 500, 100, "maker", 1);
    let events = limit(&mut book, OrderSide::Bid, 499, 10, "taker", 2);
    assert_eq!(events.len(), 1);
    let events = limit(&mut book, OrderSide::Ask, 500, 10, "other", 3);
    assert_eq!(events.len(), 1);
    assert_eq!(book.best_prices(), Some((499, 500)));
    // an ask at the price of the best bid crosses
    let events = limit(&mut book, OrderSide::Ask, 499, 10, "other", 4);
    assert_eq!(events.len(), 3);
    assert_eq!(fill(&events[1]), (true, 4, OrderType::Limit, 499, 10));
    assert_eq!(fill(&events[2]), (true, 2, OrderType::Limit, 499, 10));
}

#[test]
fn market_ask_on_an_empty_book() {
    let mut book = Orderbook::new(btc(), usd());
    let events = market(&mut book, OrderSide::Ask, 10, "taker", 5);
    assert_eq!(events.len(), 2);
    assert!(matches!(
        &events[0],
        Ok(Success::Accepted { id: 1, order_type: OrderType::Market, order_creator, ts: 5 })
            if order_creator == "taker"
    ));
    assert!(matches!(&events[1], Err(Failed::NoMatch(1))));
}

#[test]
fn market_order_stops_when_the_book_runs_dry() {
    let mut book = Orderbook::new(btc(), usd());
    limit(&mut book, OrderSide::Bid, 300, 20, "maker", 1);
    limit(&mut book, OrderSide::Bid, 200, 40, "maker", 2);
    let events = market(&mut book, OrderSide::Ask, 100, "taker", 5);
    assert_eq!(events.len(), 6);
    assert_eq!(fill(&events[1]), (false, 3, OrderType::Market, 300, 20));
    assert_eq!(fill(&events[2]), (true, 1, OrderType::Limit, 300, 20));
    assert_eq!(fill(&events[3]), (false, 3, OrderType::Market, 200, 40));
    assert_eq!(fill(&events[4]), (true, 2, OrderType::Limit, 200, 40));
    assert!(matches!(&events[5], Err(Failed::NoMatch(3))));
    assert!(book.get_side_orders(OrderSide::Bid).is_empty());
    assert!(book.get_side_orders(OrderSide::Ask).is_empty());
}

#[test]
fn market_order_of_the_same_size_fills_both() {
    let mut book = Orderbook::new(btc(), usd());
    limit(&mut book, OrderSide::Ask, 500, 25, "maker", 1);
    let events = market(&mut book, OrderSide::Bid, 25, "taker", 5);
    assert_eq!(events.len(), 3);
    assert_eq!(fill(&events[1]), (true, 2, OrderType::Market, 500, 25));
    assert_eq!(fill(&events[2]), (true, 1, OrderType::Limit, 500, 25));
    assert!(book.get_side_orders(OrderSide::Ask).is_empty());
}

#[test]
fn spread_after_mixed_activity() {
    let mut book = Orderbook::new(btc(), usd());
    assert_eq!(book.current_spread(), None);
    limit(&mut book, OrderSide::Ask, 500, 100, "maker", 1);
    assert_eq!(book.current_spread(), None);
    limit(&mut book, OrderSide::Ask, 600, 200, "maker", 2);
    limit(&mut book, OrderSide::Ask, 1000, 300, "maker", 3);
    limit(&mut book, OrderSide::Bid, 300, 20, "maker", 4);
    limit(&mut book, OrderSide::Bid, 200, 40, "maker", 5);
    limit(&mut book, OrderSide::Bid, 100, 100, "maker", 6);
    assert_eq!(book.current_spread(), Some((300, 500)));
    assert_eq!(book.best_prices(), Some((300, 500)));
}

#[test]
fn amend_and_cancel_report_what_they_did() {
    let mut book = Orderbook::new(btc(), usd());
    limit(&mut book, OrderSide::Bid, 300, 20, "maker", 1);
    limit(&mut book, OrderSide::Ask, 500, 20, "maker", 2);

    let events = book.process_order(
        orders::amend_order_request(1, OrderSide::Bid, 600, 30, 3, "maker".to_string()),
        8,
    );
    assert_eq!(events.len(), 1);
    assert!(matches!(&events[0], Ok(Success::Amended { id: 1, price: 600, qty: 30, ts: 8 })));
    // an amended order is not matched, even where it crosses
    assert_eq!(book.best_prices(), Some((600, 500)));
    let order = book.find_order(1, OrderSide::Bid).unwrap();
    assert_eq!((order.price, order.qty), (600, 30));

    let events = book.process_order(
        orders::amend_order_request(7, OrderSide::Bid, 600, 30, 3, "maker".to_string()),
        8,
    );
    assert!(matches!(&events[..], [Err(Failed::OrderNotFound(7))]));
    // the order rests on the other side
    let events = book.process_order(orders::limit_order_cancel_request(1, OrderSide::Ask), 9);
    assert!(matches!(&events[..], [Err(Failed::OrderNotFound(1))]));
    let events = book.process_order(orders::limit_order_cancel_request(1, OrderSide::Bid), 9);
    assert!(matches!(&events[..], [Ok(Success::Cancelled { id: 1, ts: 9 })]));
    assert_eq!(book.best_prices(), None);
    assert!(book.find_order(1, OrderSide::Bid).is_none());
}

#[test]
fn id_that_still_rests_is_refused_after_the_wrap() {
    let mut book = Orderbook::new(btc(), usd());
    for _ in 0..1000 {
        let events = limit(&mut book, OrderSide::Bid, 100, 1, "maker", 0);
        assert_eq!(events.len(), 1);
    }
    let events = limit(&mut book, OrderSide::Bid, 100, 1, "maker", 0);
    assert_eq!(events.len(), 2);
    assert!(matches!(&events[0], Ok(Success::Accepted { id: 1, .. })));
    assert!(matches!(&events[1], Err(Failed::DuplicateOrderID(1))));
    assert_eq!(book.get_side_orders(OrderSide::Bid).len(), 1000);
}

#[test]
fn same_requests_give_the_same_book() {
    let run = || {
        let mut book = Orderbook::new(btc(), usd());
        let mut log = Vec::new();
        log.push(format!("{:?}", limit(&mut book, OrderSide::Ask, 500, 100, "a", 1)));
        log.push(format!("{:?}", limit(&mut book, OrderSide::Ask, 500, 100, "b", 1)));
        log.push(format!("{:?}", limit(&mut book, OrderSide::Bid, 300, 10, "c", 2)));
        log.push(format!("{:?}", market(&mut book, OrderSide::Bid, 150, "d", 3)));
        log.push(format!("{:?}", book.get_side_orders(OrderSide::Ask)));
        log.push(format!("{:?}", book.get_side_orders(OrderSide::Bid)));
        log
    };
    assert_eq!(run(), run());
}

#[test]
fn sequence_resumes_inside_its_range_only() {
    assert!(resume_sequence_gen(1, 1000, 0).is_none());
    assert!(resume_sequence_gen(1, 1000, 1001).is_none());
    let mut seq = resume_sequence_gen(1, 1000, 1000).unwrap();
    assert_eq!(seq.peek_id(), 1000);
    assert_eq!(seq.next_id(), 1000);
    assert_eq!(seq.next_id(), 1);
}

#[test]
fn book_is_put_together_from_its_queues() {
    let key = |id: u64, price: u128, order_side: OrderSide| OrderIndex {
        id,
        price,
        quantity: 5,
        timestamp: 0,
        order_side,
    };
    let order = |id: u64, price: u128, side: OrderSide| orderbook::domain::Order {
        order_id: id,
        order_asset: btc(),
        price_asset: usd(),
        side,
        price,
        qty: 5,
        order_creator: "maker".to_string(),
    };
    // listed in the order of an index: the one that is served first comes last
    let bids = |side| {
        OrderQueue::from_resting(
            side,
            10,
            4,
            vec![
                (key(3, 100, side), order(3, 100, side)),
                (key(2, 200, side), order(2, 200, side)),
                (key(1, 200, side), order(1, 200, side)),
            ],
        )
    };
    let asks = |side| OrderQueue::from_resting(side, 10, 4, vec![(key(4, 300, side), order(4, 300, side))]);

    assert!(Orderbook::from_parts(btc(), usd(), 5, bids(OrderSide::Ask), asks(OrderSide::Ask)).is_none());
    assert!(Orderbook::from_parts(btc(), usd(), 5, bids(OrderSide::Bid), asks(OrderSide::Bid)).is_none());
    assert!(Orderbook::from_parts(btc(), usd(), 0, bids(OrderSide::Bid), asks(OrderSide::Ask)).is_none());
    assert!(Orderbook::from_parts(btc(), usd(), 1001, bids(OrderSide::Bid), asks(OrderSide::Ask)).is_none());

    let mut book =
        Orderbook::from_parts(btc(), usd(), 5, bids(OrderSide::Bid), asks(OrderSide::Ask)).unwrap();
    assert_eq!(book.order_asset(), "BTC");
    assert_eq!(book.price_asset(), "USD");
    assert_eq!(book.next_order_id(), 5);
    assert_eq!(book.queue(OrderSide::Bid).side(), OrderSide::Bid);
    assert_eq!(book.queue(OrderSide::Ask).max_stalled(), 10);
    let served: Vec<u64> = book
        .get_side_orders(OrderSide::Bid)
        .iter()
        .map(|order| order.order_id)
        .collect();
    assert_eq!(served, vec![1, 2, 3]);
    let copy = book.clone();
    let events = market(&mut book, OrderSide::Ask, 7, "taker", 1);
    assert_eq!(fill(&events[1]), (false, 5, OrderType::Market, 200, 5));
    assert_eq!(fill(&events[2]), (true, 1, OrderType::Limit, 200, 5));
    assert_eq!(fill(&events[3]), (true, 5, OrderType::Market, 200, 2));
    assert_eq!(fill(&events[4]), (false, 2, OrderType::Limit, 200, 2));
    // the copy is a book of its own
    assert_eq!(copy.get_side_orders(OrderSide::Bid).len(), 3);
    assert_eq!(copy.next_order_id(), 5);
    assert_eq!(book.get_side_orders(OrderSide::Bid).len(), 2);
    assert_eq!(book.next_order_id(), 6);
}

#[test]
fn time_is_not_read_without_a_host() {
    assert_eq!(host_time(), None);
    testing_env(get_context(carol(), 17));
    assert_eq!(host_time(), Some(17));
    assert_eq!(host_time(), Some(17));
}

#[test]
fn book_refuses_orders_that_are_not_what_their_keys_rank() {
    let key = |id: u64, price: u128, order_side: OrderSide| OrderIndex {
        id,
        price,
        quantity: 5,
        timestamp: 0,
        order_side,
    };
    let order = |id: u64, price: u128, qty: u128, side: OrderSide| orderbook::domain::Order {
        order_id: id,
        order_asset: btc(),
        price_asset: usd(),
        side,
        price,
        qty,
        order_creator: "maker".to_string(),
    };
    let bids = |stored: orderbook::domain::Order| {
        OrderQueue::from_resting(OrderSide::Bid, 10, 4, vec![(key(1, 100, OrderSide::Bid), stored)])
    };
    let asks = || OrderQueue::from_resting(OrderSide::Ask, 10, 4, vec![]);
    let good = bids(order(1, 100, 5, OrderSide::Bid));
    assert!(Orderbook::check_keys(&good));
    assert!(Orderbook::from_parts(btc(), usd(), 2, good, asks()).is_some());
    // another price, another id, another side, nothing open
    for stored in [
        order(1, 1, 5, OrderSide::Bid),
        order(2, 100, 5, OrderSide::Bid),
        order(1, 100, 5, OrderSide::Ask),
        order(1, 100, 0, OrderSide::Bid),
    ] {
        let queue = bids(stored);
        assert!(!Orderbook::check_keys(&queue));
        assert!(Orderbook::from_parts(btc(), usd(), 2, queue, asks()).is_none());
    }
}

#[test]
fn book_that_is_not_crossed_stays_so() {
    let mut book = Orderbook::new(btc(), usd());
    let uncrossed = |book: &Orderbook| match book.best_prices() {
        Some((bid, ask)) => bid < ask,
        None => true,
    };
    let mut seed: u64 = 7;
    for round in 0..400u64 {
        seed = seed.wrapping_mul(6364136223846793005).wrapping_add(1442695040888963407);
        let side = if seed >> 33 & 1 == 0 { OrderSide::Bid } else { OrderSide::Ask };
        let price = 90 + (seed >> 40) % 20;
        let qty = 1 + (seed >> 50) % 9;
        if round % 7 == 3 {
            market(&mut book, side, qty as u128, "m", round);
        } else {
            limit(&mut book, side, price as u128, qty as u128, "l", round);
        }
        assert!(uncrossed(&book));
        for side in [OrderSide::Bid, OrderSide::Ask] {
            assert!(Orderbook::check_keys(book.queue(side)));
            assert!(book.get_side_orders(side).iter().all(|order| order.qty > 0));
        }
    }
}

#[test]
fn limit_order_is_filled_and_rests_to_its_quantity() {
    let mut book = Orderbook::new(btc(), usd());
    limit(&mut book, OrderSide::Ask, 500, 100, "maker", 1);
    limit(&mut book, OrderSide::Ask, 600, 200, "maker", 2);
    limit(&mut book, OrderSide::Ask, 1000, 300, "maker", 3);
    let events = limit(&mut book, OrderSide::Bid, 700, 450, "taker", 9);
    let traded: u128 = events
        .iter()
        .map(|event| match event {
            Ok(Success::Filled { qty, price, .. }) | Ok(Success::PartiallyFilled { qty, price, .. }) => {
                assert!(*price <= 700);
                *qty
            }
            _ => 0,
        })
        .sum();
    assert_eq!(traded, 2 * 300);
    let bids = book.get_side_orders(OrderSide::Bid);
    assert_eq!((bids.len(), bids[0].qty, bids[0].price), (1, 150, 700));
}
