use clob_api::domain::market::MarketId;
use clob_api::domain::order::{Fill, Order, OrderHash, OrderId, OrderStatus, Side, TimeInForce};
use clob_api::events::{CancelReason, Event, SequencedEvent};
use clob_api::replay::{replay, verify_replay, ReplayError};

// ── Helpers ──────────────────────────────────────────────────────────────

fn make_order(id: &str, market: &str, side: Side, price: u64, size: u64, seq: u64) -> Order {
    Order {
        order_id: OrderId(id.to_string()),
        client_order_id: format!("cid-{id}"),
        order_hash: OrderHash([0u8; 32]),
        market_id: MarketId(market.to_string()),
        trader_id: "trader-a".to_string(),
        trader_pubkey: [0u8; 32],
        side,
        price_ticks: price,
        orig_size_lots: size,
        filled_size_lots: 0,
        time_in_force: TimeInForce::Gtc,
        nonce: seq,
        expiry_ts_ms: 0,
        status: OrderStatus::Open,
        created_sequence: seq,
        last_update_sequence: seq,
        accepted_at_ms: 1_000_000,
    }
}

fn seq(id: u64, event: Event) -> SequencedEvent {
    SequencedEvent { seq_id: id, timestamp_ms: 1_000_000 + id, event }
}

// ── Tests ─────────────────────────────────────────────────────────────────

#[test]
fn empty_log_produces_empty_state() {
    let result = replay(&[]).unwrap();
    assert_eq!(result.event_count, 0);
    assert_eq!(result.last_seq_id, 0);
    assert!(result.books.is_empty());
    assert!(result.state.filled_amounts.is_empty());
}

#[test]
fn accepted_order_appears_on_book() {
    let order = make_order("o1", "BTC-USDC", Side::Buy, 100, 10, 1);
    let events = vec![seq(1, Event::OrderAccepted { order: order.clone() })];

    let result = replay(&events).unwrap();

    assert!(result.books.contains_key("BTC-USDC"));
    let book = result.books.get("BTC-USDC").unwrap();
    assert_eq!(book.best_bid(), Some(100));
}

#[test]
fn filled_order_is_not_on_book() {
    // An order that is fully filled should NOT appear in the reconstructed book.
    let order = make_order("o1", "BTC-USDC", Side::Sell, 100, 10, 1);
    let maker_order = make_order("o2", "BTC-USDC", Side::Buy, 100, 10, 2);

    let fill = Fill {
        market_id: MarketId("BTC-USDC".into()),
        taker_order_id: OrderId("o2".into()),
        taker_order_hash: OrderHash([2u8; 32]),
        taker_trader_id: "trader-b".to_string(),
        maker_order_id: OrderId("o1".into()),
        maker_order_hash: OrderHash([1u8; 32]),
        maker_trader_id: "trader-a".to_string(),
        price_ticks: 100,
        size_lots: 10, // full fill
        sequence_id: 3,
        executed_at_ms: 1_000_003,
    };

    let events = vec![
        seq(1, Event::OrderAccepted { order: order }),
        seq(2, Event::OrderAccepted { order: maker_order }),
        seq(3, Event::Fill(fill)),
    ];

    let result = replay(&events).unwrap();

    // Both orders fully filled — book should be empty
    let book = result.books.get("BTC-USDC");
    assert!(book.is_none() || book.unwrap().best_bid().is_none());
    assert!(book.is_none() || book.unwrap().best_ask().is_none());

    // StateStore must record the fills
    assert_eq!(result.state.filled_amount(&[1u8; 32]), 10);
    assert_eq!(result.state.filled_amount(&[2u8; 32]), 10);
}

#[test]
fn cancelled_order_is_not_on_book_and_marked_in_state() {
    let mut order = make_order("o1", "BTC-USDC", Side::Buy, 100, 10, 1);
    order.order_hash = OrderHash([7u8; 32]);

    let events = vec![
        seq(1, Event::OrderAccepted { order: order.clone() }),
        seq(
            2,
            Event::OrderCancelled {
                order_id: OrderId("o1".into()),
                order_hash: OrderHash([7u8; 32]),
                reason: CancelReason::TraderRequest,
            },
        ),
    ];

    let result = replay(&events).unwrap();

    // Cancelled → not on book
    let book = result.books.get("BTC-USDC");
    assert!(book.is_none() || book.unwrap().best_bid().is_none());

    // Cancelled → marked in StateStore
    assert!(result.state.is_cancelled(&[7u8; 32]));
}

#[test]
fn stp_cancel_sets_cancelled_stp_status() {
    let mut order = make_order("o1", "BTC-USDC", Side::Buy, 100, 10, 1);
    order.order_hash = OrderHash([9u8; 32]);

    let events = vec![
        seq(1, Event::OrderAccepted { order: order.clone() }),
        seq(
            2,
            Event::OrderCancelled {
                order_id: OrderId("o1".into()),
                order_hash: OrderHash([9u8; 32]),
                reason: CancelReason::SelfTradePrevention,
            },
        ),
    ];

    // After replay the order should be off the book and marked in state.
    let result = replay(&events).unwrap();
    assert!(result.state.is_cancelled(&[9u8; 32]));
    // No open orders → no book entries
    assert!(result.books.get("BTC-USDC").is_none()
        || result.books.get("BTC-USDC").unwrap().best_bid().is_none());
}

#[test]
fn seq_id_gap_returns_error() {
    let order = make_order("o1", "BTC-USDC", Side::Buy, 100, 10, 1);
    let events = vec![
        seq(1, Event::OrderAccepted { order: order.clone() }),
        // seq_id 2 is missing — jump straight to 3
        seq(3, Event::OrderAccepted { order }),
    ];

    let err = replay(&events).unwrap_err();
    assert!(matches!(err, ReplayError::SeqIdGap { expected: 2, got: 3 }));
}

#[test]
fn order_rejected_event_does_not_affect_state() {
    let events = vec![seq(
        1,
        Event::OrderRejected {
            client_order_id: "cid-1".into(),
            trader_id: "trader-a".into(),
            reason: "ZeroPrice".into(),
        },
    )];

    let result = replay(&events).unwrap();
    assert!(result.books.is_empty());
    assert!(result.state.filled_amounts.is_empty());
    assert!(result.state.nonces.is_empty());
}

#[test]
fn time_priority_preserved_within_price_level() {
    // Two buy orders at the same price — created_sequence order must be FIFO.
    let o1 = make_order("o1", "BTC-USDC", Side::Buy, 100, 5, 1);
    let o2 = make_order("o2", "BTC-USDC", Side::Buy, 100, 5, 2);

    let events = vec![
        seq(1, Event::OrderAccepted { order: o1 }),
        seq(2, Event::OrderAccepted { order: o2 }),
    ];

    let result = replay(&events).unwrap();
    let book = result.books.get("BTC-USDC").unwrap();

    // Both orders at price 100
    let queue = book.orders_at_price(100, clob_api::domain::order::Side::Buy);
    assert_eq!(queue.len(), 2);
    // o1 was placed first (created_sequence=1) so it must be head of queue
    assert_eq!(queue[0], OrderId("o1".into()));
    assert_eq!(queue[1], OrderId("o2".into()));
}

#[test]
fn partial_fill_leaves_order_on_book() {
    // An order that is half-filled should remain in the book.
    let mut order = make_order("o1", "BTC-USDC", Side::Sell, 100, 20, 1);
    order.order_hash = OrderHash([1u8; 32]);

    let mut taker = make_order("o2", "BTC-USDC", Side::Buy, 100, 10, 2);
    taker.order_hash = OrderHash([2u8; 32]);

    let fill = Fill {
        market_id: MarketId("BTC-USDC".into()),
        taker_order_id: OrderId("o2".into()),
        taker_order_hash: OrderHash([2u8; 32]),
        taker_trader_id: "trader-b".into(),
        maker_order_id: OrderId("o1".into()),
        maker_order_hash: OrderHash([1u8; 32]),
        maker_trader_id: "trader-a".into(),
        price_ticks: 100,
        size_lots: 10, // only half of o1's 20 lots
        sequence_id: 3,
        executed_at_ms: 1_000_003,
    };

    let events = vec![
        seq(1, Event::OrderAccepted { order }),
        seq(2, Event::OrderAccepted { order: taker }),
        seq(3, Event::Fill(fill)),
    ];

    let result = replay(&events).unwrap();

    // o1 is partially filled (10/20) — still on the book as an ask
    let book = result.books.get("BTC-USDC").unwrap();
    assert_eq!(book.best_ask(), Some(100));

    // taker (o2) is fully filled (10/10) — NOT on the book
    assert_eq!(book.best_bid(), None);

    // StateStore records 10 filled for both
    assert_eq!(result.state.filled_amount(&[1u8; 32]), 10);
    assert_eq!(result.state.filled_amount(&[2u8; 32]), 10);
}

#[test]
fn nonce_advanced_for_each_accepted_order() {
    let mut o1 = make_order("o1", "BTC-USDC", Side::Buy, 100, 5, 1);
    o1.nonce = 7;
    let mut o2 = make_order("o2", "BTC-USDC", Side::Buy, 101, 5, 2);
    o2.nonce = 12;

    let events = vec![
        seq(1, Event::OrderAccepted { order: o1 }),
        seq(2, Event::OrderAccepted { order: o2 }),
    ];

    let result = replay(&events).unwrap();

    // After replay, the nonce for trader-a should be the highest seen (12).
    assert_eq!(result.state.last_nonce("trader-a"), 12);
}

#[test]
fn verify_replay_returns_same_checksum_both_runs() {
    let order = make_order("o1", "BTC-USDC", Side::Buy, 100, 10, 1);
    let events = vec![seq(1, Event::OrderAccepted { order })];
    // verify_replay panics on non-determinism — just confirm it succeeds.
    verify_replay(&events).unwrap();
}

#[test]
fn multi_market_events_produce_separate_books() {
    let o1 = make_order("o1", "BTC-USDC", Side::Buy, 100, 5, 1);
    let mut o2 = make_order("o2", "ETH-USDC", Side::Sell, 200, 5, 2);
    o2.market_id = MarketId("ETH-USDC".into());
    o2.trader_id = "trader-a".into();

    let events = vec![
        seq(1, Event::OrderAccepted { order: o1 }),
        seq(2, Event::OrderAccepted { order: o2 }),
    ];

    let result = replay(&events).unwrap();

    assert!(result.books.contains_key("BTC-USDC"));
    assert!(result.books.contains_key("ETH-USDC"));
    assert_eq!(result.books.get("BTC-USDC").unwrap().best_bid(), Some(100));
    assert_eq!(result.books.get("ETH-USDC").unwrap().best_ask(), Some(200));
}

#[test]
fn a_log_that_begins_with_0_has_to_go_on_with_1() {
    let paused = |n| {
        seq(n, Event::MarketPaused { market_id: MarketId("M".into()), triggered_by: "ops".into() })
    };
    assert!(matches!(
        replay(&[paused(0), paused(5)]),
        Err(ReplayError::SeqIdGap { expected: 1, got: 5 })
    ));
    assert_eq!(replay(&[paused(0), paused(1)]).unwrap().last_seq_id, 1);
    assert_eq!(replay(&[paused(5), paused(6)]).unwrap().last_seq_id, 6);
}
