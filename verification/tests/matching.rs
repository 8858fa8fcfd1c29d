use clob_api::domain::market::MarketId;
use clob_api::domain::order::{Order, OrderHash, OrderId, OrderStatus, Side, TimeInForce};
use clob_api::engine::matching::match_order;
use clob_api::engine::orderbook::OrderBook;

static SEQ: u64 = 99;
static NOW: u64 = 1_000_000;

/// Build an Order for testing. `trader` lets us control STP scenarios.
fn make_order(id: &str, trader: &str, side: Side, price: u64, size: u64) -> Order {
    Order {
        order_id: OrderId(id.into()),
        client_order_id: format!("c-{id}"),
        order_hash: OrderHash([0u8; 32]),
        market_id: MarketId("BTC-USDC".into()),
        trader_id: trader.into(),
        trader_pubkey: [0u8; 32],
        side,
        price_ticks: price,
        orig_size_lots: size,
        filled_size_lots: 0,
        time_in_force: TimeInForce::Gtc,
        nonce: 1,
        expiry_ts_ms: 0,
        status: OrderStatus::Open,
        created_sequence: 1,
        last_update_sequence: 1,
        accepted_at_ms: 0,
    }
}

// ── Basic match tests ────────────────────────────────────────────────────

#[test]
fn buy_fully_matches_single_ask() {
    let mut book = OrderBook::new();
    // Resting ask: sell 10 lots at 51_000
    book.insert(make_order("maker", "trader-A", Side::Sell, 51_000, 10));

    // Incoming buy: buy 10 lots willing to pay up to 52_000
    let mut taker = make_order("taker", "trader-B", Side::Buy, 52_000, 10);

    let fills = match_order(&mut book, &mut taker, SEQ, NOW);

    assert_eq!(fills.len(), 1);
    assert_eq!(fills[0].price_ticks, 51_000); // fill at maker's price
    assert_eq!(fills[0].size_lots, 10);
    assert_eq!(taker.status, OrderStatus::Filled);
    assert_eq!(taker.remaining_size_lots(), 0);

    // Maker should be fully filled and gone from the book
    assert!(book.best_ask().is_none());
}

#[test]
fn sell_fully_matches_single_bid() {
    let mut book = OrderBook::new();
    book.insert(make_order("maker", "trader-A", Side::Buy, 50_000, 10));

    let mut taker = make_order("taker", "trader-B", Side::Sell, 49_000, 10);

    let fills = match_order(&mut book, &mut taker, SEQ, NOW);

    assert_eq!(fills.len(), 1);
    assert_eq!(fills[0].price_ticks, 50_000); // fill at maker's price
    assert_eq!(fills[0].size_lots, 10);
    assert_eq!(taker.status, OrderStatus::Filled);
    assert!(book.best_bid().is_none());
}

#[test]
fn no_match_when_prices_dont_cross() {
    let mut book = OrderBook::new();
    // Ask is higher than buy limit — no match
    book.insert(make_order("maker", "trader-A", Side::Sell, 55_000, 10));

    let mut taker = make_order("taker", "trader-B", Side::Buy, 50_000, 10);

    let fills = match_order(&mut book, &mut taker, SEQ, NOW);

    assert!(fills.is_empty());
    assert_eq!(taker.status, OrderStatus::Open);
    assert_eq!(taker.remaining_size_lots(), 10);
    // Maker should still be on the book
    assert_eq!(book.best_ask(), Some(55_000));
}

// ── Partial fill tests ────────────────────────────────────────────────────

#[test]
fn taker_larger_than_maker_leaves_taker_partial() {
    let mut book = OrderBook::new();
    book.insert(make_order("maker", "trader-A", Side::Sell, 51_000, 5));

    // Taker wants 10, maker only has 5 → taker partially filled
    let mut taker = make_order("taker", "trader-B", Side::Buy, 52_000, 10);

    let fills = match_order(&mut book, &mut taker, SEQ, NOW);

    assert_eq!(fills.len(), 1);
    assert_eq!(fills[0].size_lots, 5);
    assert_eq!(taker.status, OrderStatus::PartiallyFilled);
    assert_eq!(taker.remaining_size_lots(), 5); // 5 left for the book
}

#[test]
fn maker_larger_than_taker_leaves_maker_partial() {
    let mut book = OrderBook::new();
    book.insert(make_order("maker", "trader-A", Side::Sell, 51_000, 20));

    // Taker only wants 5
    let mut taker = make_order("taker", "trader-B", Side::Buy, 52_000, 5);

    let fills = match_order(&mut book, &mut taker, SEQ, NOW);

    assert_eq!(fills.len(), 1);
    assert_eq!(fills[0].size_lots, 5);
    assert_eq!(taker.status, OrderStatus::Filled);

    // Maker partially filled, still on the book with 15 remaining
    let maker = book.get(&OrderId("maker".into())).unwrap();
    assert_eq!(maker.status, OrderStatus::PartiallyFilled);
    assert_eq!(maker.remaining_size_lots(), 15);
    assert_eq!(book.best_ask(), Some(51_000)); // still there
}

// ── Multi-level and multi-order tests ─────────────────────────────────────

#[test]
fn buy_walks_multiple_price_levels() {
    let mut book = OrderBook::new();
    // Three ask levels
    book.insert(make_order("a1", "trader-A", Side::Sell, 51_000, 5));
    book.insert(make_order("a2", "trader-A", Side::Sell, 52_000, 5));
    book.insert(make_order("a3", "trader-A", Side::Sell, 53_000, 5));

    // Taker wants 15 and is willing to pay up to 53_000
    let mut taker = make_order("taker", "trader-B", Side::Buy, 53_000, 15);

    let fills = match_order(&mut book, &mut taker, SEQ, NOW);

    assert_eq!(fills.len(), 3); // one fill per price level
    assert_eq!(fills[0].price_ticks, 51_000); // cheapest first
    assert_eq!(fills[1].price_ticks, 52_000);
    assert_eq!(fills[2].price_ticks, 53_000);
    assert_eq!(taker.status, OrderStatus::Filled);
    assert!(book.best_ask().is_none()); // all makers consumed
}

#[test]
fn buy_stops_at_limit_price() {
    let mut book = OrderBook::new();
    book.insert(make_order("a1", "trader-A", Side::Sell, 51_000, 5));
    book.insert(make_order("a2", "trader-A", Side::Sell, 52_000, 5)); // above limit

    // Taker willing to pay up to 51_000 only
    let mut taker = make_order("taker", "trader-B", Side::Buy, 51_000, 10);

    let fills = match_order(&mut book, &mut taker, SEQ, NOW);

    // Only matched the 51_000 ask
    assert_eq!(fills.len(), 1);
    assert_eq!(fills[0].price_ticks, 51_000);
    assert_eq!(fills[0].size_lots, 5);
    assert_eq!(taker.status, OrderStatus::PartiallyFilled);
    assert_eq!(taker.remaining_size_lots(), 5);
    // The 52_000 ask is still on the book
    assert_eq!(book.best_ask(), Some(52_000));
}

#[test]
fn fifo_priority_at_same_price() {
    let mut book = OrderBook::new();
    // Two orders at the same price — first inserted should match first
    book.insert(make_order("first",  "trader-A", Side::Sell, 51_000, 5));
    book.insert(make_order("second", "trader-B", Side::Sell, 51_000, 5));

    // Taker wants 5 — should only match "first"
    let mut taker = make_order("taker", "trader-C", Side::Buy, 51_000, 5);

    let fills = match_order(&mut book, &mut taker, SEQ, NOW);

    assert_eq!(fills.len(), 1);
    assert_eq!(fills[0].maker_order_id, OrderId("first".into()));
    assert_eq!(taker.status, OrderStatus::Filled);

    // "second" should still be on the book
    let ids = book.orders_at_price(51_000, Side::Sell);
    assert_eq!(ids, vec![OrderId("second".into())]);
}

// ── Self-trade prevention (STP) ───────────────────────────────────────────

#[test]
fn stp_cancels_taker_when_same_trader() {
    let mut book = OrderBook::new();
    // Maker and taker are the same trader
    book.insert(make_order("maker", "trader-A", Side::Sell, 51_000, 10));

    let mut taker = make_order("taker", "trader-A", Side::Buy, 52_000, 10);

    let fills = match_order(&mut book, &mut taker, SEQ, NOW);

    // No fills — STP cancels the taker
    assert!(fills.is_empty());
    assert_eq!(taker.status, OrderStatus::CancelledStp);

    // Maker is untouched
    let maker = book.get(&OrderId("maker".into())).unwrap();
    assert_eq!(maker.status, OrderStatus::Open);
    assert_eq!(maker.remaining_size_lots(), 10);
}

#[test]
fn stp_only_applies_to_self_trade_not_next_maker() {
    let mut book = OrderBook::new();
    // First maker: same trader as taker → STP triggers, matching stops
    // Second maker: different trader (would be a valid match if STP didn't trigger)
    book.insert(make_order("stp-maker",   "trader-A", Side::Sell, 51_000, 5));
    book.insert(make_order("other-maker", "trader-B", Side::Sell, 52_000, 5));

    let mut taker = make_order("taker", "trader-A", Side::Buy, 53_000, 10);

    let fills = match_order(&mut book, &mut taker, SEQ, NOW);

    // STP fires on first encounter — whole taker cancelled, no fills produced
    assert!(fills.is_empty());
    assert_eq!(taker.status, OrderStatus::CancelledStp);
}

// ── Fill correctness ──────────────────────────────────────────────────────

#[test]
fn fill_records_correct_trader_ids() {
    let mut book = OrderBook::new();
    book.insert(make_order("maker", "maker-trader", Side::Sell, 51_000, 10));

    let mut taker = make_order("taker", "taker-trader", Side::Buy, 51_000, 10);
    let fills = match_order(&mut book, &mut taker, SEQ, NOW);

    assert_eq!(fills[0].taker_trader_id, "taker-trader");
    assert_eq!(fills[0].maker_trader_id, "maker-trader");
    assert_eq!(fills[0].sequence_id, SEQ);
    assert_eq!(fills[0].executed_at_ms, NOW);
}

#[test]
fn total_filled_qty_matches_sum_of_fills() {
    let mut book = OrderBook::new();
    book.insert(make_order("m1", "trader-A", Side::Sell, 51_000, 3));
    book.insert(make_order("m2", "trader-A", Side::Sell, 51_000, 4));
    book.insert(make_order("m3", "trader-A", Side::Sell, 52_000, 5));

    let mut taker = make_order("taker", "trader-B", Side::Buy, 53_000, 12);
    let fills = match_order(&mut book, &mut taker, SEQ, NOW);

    let total: u64 = fills.iter().map(|f| f.size_lots).sum();
    assert_eq!(total, taker.filled_size_lots);
    assert_eq!(total, 12);
}
