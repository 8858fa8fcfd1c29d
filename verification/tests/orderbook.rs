use clob_api::domain::market::MarketId;
use clob_api::domain::order::{Order, OrderHash, OrderId, OrderStatus, Side, TimeInForce};
use clob_api::engine::matching::match_order;
use clob_api::engine::orderbook::OrderBook;

/// Build a minimal Order for testing — all boilerplate, focus on the fields
/// that vary per test (side, price, size).
fn make_order(id: &str, side: Side, price: u64, size: u64) -> Order {
    Order {
        order_id: OrderId(id.into()),
        client_order_id: format!("client-{id}"),
        order_hash: OrderHash([0u8; 32]),
        market_id: MarketId("BTC-USDC".into()),
        trader_id: "trader-1".into(),
        trader_pubkey: [0u8; 32],
        side,
        price_ticks: price,
        orig_size_lots: size,
        filled_size_lots: 0,
        time_in_force: TimeInForce::Gtc,
        nonce: 1,
        expiry_ts_ms: 0,
        status: OrderStatus::Open,
        created_sequence: 1,
        last_update_sequence: 1,
        accepted_at_ms: 0,
    }
}

#[test]
fn empty_book_has_no_best_prices() {
    let book = OrderBook::new();
    assert!(book.best_bid().is_none());
    assert!(book.best_ask().is_none());
}

#[test]
fn insert_buy_sets_best_bid() {
    let mut book = OrderBook::new();
    book.insert(make_order("o1", Side::Buy, 50_000, 10));
    assert_eq!(book.best_bid(), Some(50_000));
    assert!(book.best_ask().is_none());
}

#[test]
fn insert_sell_sets_best_ask() {
    let mut book = OrderBook::new();
    book.insert(make_order("o1", Side::Sell, 51_000, 5));
    assert_eq!(book.best_ask(), Some(51_000));
    assert!(book.best_bid().is_none());
}

#[test]
fn best_bid_is_highest_price() {
    let mut book = OrderBook::new();
    book.insert(make_order("o1", Side::Buy, 49_000, 10));
    book.insert(make_order("o2", Side::Buy, 50_000, 10)); // better bid
    book.insert(make_order("o3", Side::Buy, 48_000, 10));
    assert_eq!(book.best_bid(), Some(50_000));
}

#[test]
fn best_ask_is_lowest_price() {
    let mut book = OrderBook::new();
    book.insert(make_order("o1", Side::Sell, 52_000, 5));
    book.insert(make_order("o2", Side::Sell, 51_000, 5)); // better ask
    book.insert(make_order("o3", Side::Sell, 53_000, 5));
    assert_eq!(book.best_ask(), Some(51_000));
}

#[test]
fn cancel_removes_order_and_updates_best_bid() {
    let mut book = OrderBook::new();
    book.insert(make_order("o1", Side::Buy, 50_000, 10));
    book.insert(make_order("o2", Side::Buy, 49_000, 10));

    assert!(book.cancel(&OrderId("o1".into())));
    // best bid should now be the lower one
    assert_eq!(book.best_bid(), Some(49_000));
}

#[test]
fn orderbook_cancel_is_idempotent() {
    let mut book = OrderBook::new();
    book.insert(make_order("o1", Side::Buy, 50_000, 10));

    assert!(book.cancel(&OrderId("o1".into())));
    // Second cancel on an already-cancelled order returns false
    assert!(!book.cancel(&OrderId("o1".into())));
}

#[test]
fn cancel_nonexistent_order_returns_false() {
    let mut book = OrderBook::new();
    assert!(!book.cancel(&OrderId("ghost".into())));
}

#[test]
fn orders_at_price_returns_fifo_order() {
    let mut book = OrderBook::new();
    // Insert three orders at the same price — they should come back in insert order
    book.insert(make_order("first",  Side::Sell, 51_000, 5));
    book.insert(make_order("second", Side::Sell, 51_000, 5));
    book.insert(make_order("third",  Side::Sell, 51_000, 5));

    let ids = book.orders_at_price(51_000, Side::Sell);
    assert_eq!(ids.len(), 3);
    assert_eq!(ids[0], OrderId("first".into()));
    assert_eq!(ids[1], OrderId("second".into()));
    assert_eq!(ids[2], OrderId("third".into()));
}

#[test]
fn remove_from_queue_cleans_empty_price_level() {
    let mut book = OrderBook::new();
    book.insert(make_order("o1", Side::Sell, 51_000, 5));

    // Manually set to Filled so is_closed() passes, then remove from queue
    book.get_mut(&OrderId("o1".into())).unwrap().status = OrderStatus::Filled;
    book.remove_from_queue(&OrderId("o1".into()));

    // Price level should be gone
    assert_eq!(book.ask_prices_asc(), Vec::<u64>::new());
    assert!(book.best_ask().is_none());
}

#[test]
fn l2_bids_aggregates_correctly() {
    let mut book = OrderBook::new();
    book.insert(make_order("o1", Side::Buy, 50_000, 10));
    book.insert(make_order("o2", Side::Buy, 50_000, 5));  // same price level
    book.insert(make_order("o3", Side::Buy, 49_000, 20)); // different level

    let bids = book.l2_bids(10);
    assert_eq!(bids.len(), 2);
    // Best bid first
    assert_eq!(bids[0].price, 50_000);
    assert_eq!(bids[0].total_qty, 15);   // 10 + 5
    assert_eq!(bids[0].order_count, 2);
    assert_eq!(bids[1].price, 49_000);
    assert_eq!(bids[1].total_qty, 20);
}

#[test]
fn l2_asks_aggregates_correctly() {
    let mut book = OrderBook::new();
    book.insert(make_order("o1", Side::Sell, 51_000, 8));
    book.insert(make_order("o2", Side::Sell, 51_000, 2));  // same level
    book.insert(make_order("o3", Side::Sell, 52_000, 15));

    let asks = book.l2_asks(10);
    assert_eq!(asks.len(), 2);
    // Best ask (lowest price) first
    assert_eq!(asks[0].price, 51_000);
    assert_eq!(asks[0].total_qty, 10); // 8 + 2
    assert_eq!(asks[1].price, 52_000);
    assert_eq!(asks[1].total_qty, 15);
}

#[test]
fn l2_depth_limits_levels() {
    let mut book = OrderBook::new();
    for price in [50_000, 49_000, 48_000, 47_000, 46_000] {
        book.insert(make_order(&price.to_string(), Side::Buy, price, 1));
    }
    let bids = book.l2_bids(3);
    assert_eq!(bids.len(), 3);
    assert_eq!(bids[0].price, 50_000); // best bid first
}

#[test]
fn ask_prices_are_ascending() {
    let mut book = OrderBook::new();
    book.insert(make_order("o1", Side::Sell, 53_000, 1));
    book.insert(make_order("o2", Side::Sell, 51_000, 1));
    book.insert(make_order("o3", Side::Sell, 52_000, 1));

    let prices = book.ask_prices_asc();
    assert_eq!(prices, vec![51_000, 52_000, 53_000]);
}

#[test]
fn bid_prices_are_descending() {
    let mut book = OrderBook::new();
    book.insert(make_order("o1", Side::Buy, 48_000, 1));
    book.insert(make_order("o2", Side::Buy, 50_000, 1));
    book.insert(make_order("o3", Side::Buy, 49_000, 1));

    let prices = book.bid_prices_desc();
    assert_eq!(prices, vec![50_000, 49_000, 48_000]);
}

#[test]
fn listed_prices_are_those_of_open_orders() {
    let mut book = OrderBook::new();
    for (id, side, price) in [
        ("a", Side::Sell, 12),
        ("b", Side::Sell, 10),
        ("c", Side::Sell, 12),
        ("d", Side::Sell, 11),
        ("e", Side::Buy, 7),
        ("f", Side::Buy, 9),
        ("g", Side::Buy, 8),
    ] {
        book.insert(make_order(id, side, price, 5));
    }
    book.cancel(&OrderId("d".into()));
    book.cancel(&OrderId("c".into()));
    book.cancel(&OrderId("f".into()));
    assert_eq!(book.ask_prices_asc(), vec![10, 12]);
    assert_eq!(book.bid_prices_desc(), vec![8, 7]);
    assert_eq!((book.best_bid(), book.best_ask()), (Some(8), Some(10)));
    let mut taker = make_order("t", Side::Buy, 11, 6);
    taker.trader_id = "trader-2".into();
    let fills = match_order(&mut book, &mut taker, 9, 0);
    assert_eq!(fills.len(), 1);
    assert_eq!(book.ask_prices_asc(), vec![12]);
    assert_eq!(book.best_ask(), Some(12));
    assert!(book.orders_at_price(10, Side::Sell).is_empty());
    assert!(!book.orders_at_price(12, Side::Sell).is_empty());
}
