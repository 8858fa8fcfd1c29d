use clob_api::clock::FixedClock;
use clob_api::domain::market::{MarketConfig, MarketId, MarketStatus};
use clob_api::domain::order::{CURRENT_SCHEMA_VERSION, OrderError, OrderStatus, Side, SignedOrder, TimeInForce};
use clob_api::engine::{CancelError, Engine, EngineError};
use ed25519_dalek::{Signer, SigningKey};
use rand::rngs::OsRng;

// ── Test helpers ─────────────────────────────────────────────────────────

/// An active BTC-USDC market with tick=1_000, lot=1.
fn btc_usdc() -> MarketConfig {
    MarketConfig {
        id: MarketId("BTC-USDC".into()),
        base_asset: "BTC".into(),
        quote_asset: "USDC".into(),
        tick_size: 1_000,
        lot_size: 1,
        fee_bps_maker: 10,
        fee_bps_taker: 20,
        status: MarketStatus::Active,
    }
}

/// Sign and return a valid SignedOrder.
fn signed_order(
    key: &SigningKey,
    market_id: &str,
    side: Side,
    price: u64,
    size: u64,
    nonce: u64,
    client_order_id: &str,
) -> SignedOrder {
    let pubkey = key.verifying_key().to_bytes();
    let mut order = SignedOrder {
        schema_version: CURRENT_SCHEMA_VERSION,
        client_order_id: client_order_id.into(),
        market_id: MarketId(market_id.into()),
        trader_id: hex::encode(pubkey),
        side,
        price_ticks: price,
        size_lots: size,
        time_in_force: TimeInForce::Gtc,
        nonce,
        expiry_ts_ms: 0,
        created_at_ms: 1_000,
        salt: nonce,
        trader_pubkey: pubkey,
        signature: [0u8; 64],
    };
    let hash = order.canonical_hash();
    order.signature = key.sign(&hash.0).to_bytes();
    order
}

/// Engine with a fixed clock for deterministic tests.
fn test_engine() -> Engine {
    Engine::with_clock(Box::new(FixedClock(1_000_000)))
}

// ── Basic order placement ─────────────────────────────────────────────────

#[test]
fn place_resting_order() {
    let mut engine = test_engine();
    engine.add_market(btc_usdc());

    let key = SigningKey::generate(&mut OsRng);
    let order = signed_order(&key, "BTC-USDC", Side::Buy, 50_000_000, 1, 1, "c-1");

    let result = engine.process_order(order).unwrap();
    assert_eq!(result.final_status, OrderStatus::Open);
    assert!(result.fills.is_empty());
    assert!(!result.is_duplicate);

    // Best bid should now reflect the resting order
    assert_eq!(engine.best_prices("BTC-USDC"), Some((Some(50_000_000), None)));
}

#[test]
fn two_orders_match_fully() {
    let mut engine = test_engine();
    engine.add_market(btc_usdc());

    let buyer = SigningKey::generate(&mut OsRng);
    let seller = SigningKey::generate(&mut OsRng);

    // Seller posts ask at 51_000_000
    let ask = signed_order(&seller, "BTC-USDC", Side::Sell, 51_000_000, 10, 1, "ask-1");
    let ask_result = engine.process_order(ask).unwrap();
    assert_eq!(ask_result.final_status, OrderStatus::Open);

    // Buyer crosses at 51_000_000 — should match
    let bid = signed_order(&buyer, "BTC-USDC", Side::Buy, 51_000_000, 10, 1, "bid-1");
    let bid_result = engine.process_order(bid).unwrap();

    assert_eq!(bid_result.final_status, OrderStatus::Filled);
    assert_eq!(bid_result.fills.len(), 1);
    assert_eq!(bid_result.fills[0].price_ticks, 51_000_000);
    assert_eq!(bid_result.fills[0].size_lots, 10);

    // Book should be empty after full match
    assert_eq!(engine.best_prices("BTC-USDC"), Some((None, None)));
}

#[test]
fn partial_fill_residual_rests_on_book() {
    let mut engine = test_engine();
    engine.add_market(btc_usdc());

    let maker = SigningKey::generate(&mut OsRng);
    let taker = SigningKey::generate(&mut OsRng);

    // Resting ask: 10 lots
    let ask = signed_order(&maker, "BTC-USDC", Side::Sell, 51_000_000, 10, 1, "ask-1");
    engine.process_order(ask).unwrap();

    // Incoming buy: 6 lots — partially fills the ask, 4 lots remain
    let bid = signed_order(&taker, "BTC-USDC", Side::Buy, 52_000_000, 6, 1, "bid-1");
    let result = engine.process_order(bid).unwrap();

    assert_eq!(result.final_status, OrderStatus::Filled);
    assert_eq!(result.fills[0].size_lots, 6);

    // 4 lots of the ask should still be resting
    let l2 = engine.l2_snapshot("BTC-USDC", 5).unwrap();
    assert_eq!(l2.1[0].total_qty, 4); // asks side
}

// ── Validation rejection tests ────────────────────────────────────────────

#[test]
fn reject_invalid_signature() {
    let mut engine = test_engine();
    engine.add_market(btc_usdc());

    let key = SigningKey::generate(&mut OsRng);
    let mut order = signed_order(&key, "BTC-USDC", Side::Buy, 50_000_000, 1, 1, "c-1");
    order.price_ticks = 49_000_000; // tamper after signing

    assert!(matches!(
        engine.process_order(order),
        Err(EngineError::Order(OrderError::InvalidSignature))
    ));
}

#[test]
fn reject_expired_order() {
    // Fixed clock at 2_000_000 ms
    let mut engine = Engine::with_clock(Box::new(FixedClock(2_000_000)));
    engine.add_market(btc_usdc());

    let key = SigningKey::generate(&mut OsRng);
    let pubkey = key.verifying_key().to_bytes();
    let mut order = SignedOrder {
        schema_version: CURRENT_SCHEMA_VERSION,
        client_order_id: "c-1".into(),
        market_id: MarketId("BTC-USDC".into()),
        trader_id: hex::encode(pubkey),
        side: Side::Buy,
        price_ticks: 50_000_000,
        size_lots: 1,
        time_in_force: TimeInForce::Gtc,
        nonce: 1,
        expiry_ts_ms: 1_000_000, // already past the clock
        created_at_ms: 0,
        salt: 0,
        trader_pubkey: pubkey,
        signature: [0u8; 64],
    };
    let hash = order.canonical_hash();
    order.signature = key.sign(&hash.0).to_bytes();

    assert!(matches!(
        engine.process_order(order),
        Err(EngineError::Order(OrderError::Expired { .. }))
    ));
}

#[test]
fn reject_unknown_market() {
    let mut engine = test_engine();
    // Don't call add_market — BTC-USDC doesn't exist

    let key = SigningKey::generate(&mut OsRng);
    let order = signed_order(&key, "BTC-USDC", Side::Buy, 50_000_000, 1, 1, "c-1");

    assert!(matches!(
        engine.process_order(order),
        Err(EngineError::Order(OrderError::MarketNotFound(_)))
    ));
}

#[test]
fn reject_paused_market() {
    let mut engine = test_engine();
    let mut market = btc_usdc();
    market.status = MarketStatus::Paused;
    engine.add_market(market);

    let key = SigningKey::generate(&mut OsRng);
    let order = signed_order(&key, "BTC-USDC", Side::Buy, 50_000_000, 1, 1, "c-1");

    assert!(matches!(
        engine.process_order(order),
        Err(EngineError::Order(OrderError::MarketNotActive(_)))
    ));
}

#[test]
fn reject_invalid_tick() {
    let mut engine = test_engine();
    engine.add_market(btc_usdc()); // tick_size = 1_000

    let key = SigningKey::generate(&mut OsRng);
    // 50_000_500 % 1_000 != 0
    let order = signed_order(&key, "BTC-USDC", Side::Buy, 50_000_500, 1, 1, "c-1");

    assert!(matches!(
        engine.process_order(order),
        Err(EngineError::Order(OrderError::InvalidTick { .. }))
    ));
}

#[test]
fn reject_nonce_reuse() {
    let mut engine = test_engine();
    engine.add_market(btc_usdc());

    let key = SigningKey::generate(&mut OsRng);
    let o1 = signed_order(&key, "BTC-USDC", Side::Buy, 50_000_000, 1, 5, "c-1");
    engine.process_order(o1).unwrap();

    // Same nonce again
    let o2 = signed_order(&key, "BTC-USDC", Side::Buy, 50_000_000, 1, 5, "c-2");
    assert!(matches!(
        engine.process_order(o2),
        Err(EngineError::Nonce(_))
    ));
}

// ── Idempotency ───────────────────────────────────────────────────────────

#[test]
fn duplicate_client_order_id_returns_original() {
    let mut engine = test_engine();
    engine.add_market(btc_usdc());

    let key = SigningKey::generate(&mut OsRng);
    let o1 = signed_order(&key, "BTC-USDC", Side::Buy, 50_000_000, 1, 1, "idempotent-key");
    let r1 = engine.process_order(o1).unwrap();

    // Same client_order_id — different nonce to pass nonce check,
    // but idempotency triggers before nonce check
    let o2 = signed_order(&key, "BTC-USDC", Side::Buy, 50_000_000, 1, 2, "idempotent-key");
    let r2 = engine.process_order(o2).unwrap();

    assert!(r2.is_duplicate);
    assert_eq!(r2.order_id, r1.order_id);
    assert_eq!(r2.order_hash, r1.order_hash);
    assert_eq!(r2.seq_id, r1.seq_id);
    // No new events should have been appended
    assert_eq!(engine.sequencer.len(), r1.seq_id as usize);
}

// ── Cancel ────────────────────────────────────────────────────────────────

#[test]
fn cancel_own_order() {
    let mut engine = test_engine();
    engine.add_market(btc_usdc());

    let key = SigningKey::generate(&mut OsRng);
    let order = signed_order(&key, "BTC-USDC", Side::Buy, 50_000_000, 1, 1, "c-1");
    let trader_id = hex::encode(key.verifying_key().to_bytes());

    let placed = engine.process_order(order).unwrap();
    assert_eq!(engine.best_prices("BTC-USDC"), Some((Some(50_000_000), None)));

    let cancel = engine.process_cancel(&placed.order_id, &trader_id).unwrap();
    assert!(!cancel.was_already_closed);

    // Book should be empty
    assert_eq!(engine.best_prices("BTC-USDC"), Some((None, None)));
}

#[test]
fn cancel_someone_elses_order_fails() {
    let mut engine = test_engine();
    engine.add_market(btc_usdc());

    let owner = SigningKey::generate(&mut OsRng);
    let attacker = SigningKey::generate(&mut OsRng);

    let order = signed_order(&owner, "BTC-USDC", Side::Buy, 50_000_000, 1, 1, "c-1");
    let placed = engine.process_order(order).unwrap();

    let attacker_id = hex::encode(attacker.verifying_key().to_bytes());
    assert!(matches!(
        engine.process_cancel(&placed.order_id, &attacker_id),
        Err(CancelError::Unauthorized(_))
    ));
}

#[test]
fn mod_cancel_is_idempotent() {
    let mut engine = test_engine();
    engine.add_market(btc_usdc());

    let key = SigningKey::generate(&mut OsRng);
    let trader_id = hex::encode(key.verifying_key().to_bytes());
    let order = signed_order(&key, "BTC-USDC", Side::Buy, 50_000_000, 1, 1, "c-1");
    let placed = engine.process_order(order).unwrap();

    engine.process_cancel(&placed.order_id, &trader_id).unwrap();
    let r2 = engine.process_cancel(&placed.order_id, &trader_id).unwrap();
    assert!(r2.was_already_closed);
}

// ── STP ───────────────────────────────────────────────────────────────────

#[test]
fn stp_cancels_taker_and_emits_event() {
    let mut engine = test_engine();
    engine.add_market(btc_usdc());

    // Same key for both maker and taker = same trader_id = self-trade
    let key = SigningKey::generate(&mut OsRng);

    let maker = signed_order(&key, "BTC-USDC", Side::Sell, 51_000_000, 5, 1, "maker");
    engine.process_order(maker).unwrap();

    let taker = signed_order(&key, "BTC-USDC", Side::Buy, 52_000_000, 5, 2, "taker");
    let result = engine.process_order(taker).unwrap();

    assert_eq!(result.final_status, OrderStatus::CancelledStp);
    assert!(result.fills.is_empty());

    // Maker untouched
    assert_eq!(engine.best_prices("BTC-USDC"), Some((None, Some(51_000_000))));
}

// ── Event log integrity ───────────────────────────────────────────────────

#[test]
fn event_log_seq_ids_have_no_gaps() {
    let mut engine = test_engine();
    engine.add_market(btc_usdc());

    let buyer = SigningKey::generate(&mut OsRng);
    let seller = SigningKey::generate(&mut OsRng);

    engine.process_order(signed_order(&seller, "BTC-USDC", Side::Sell, 51_000_000, 5, 1, "s1")).unwrap();
    engine.process_order(signed_order(&buyer,  "BTC-USDC", Side::Buy,  51_000_000, 5, 1, "b1")).unwrap();

    for (i, ev) in engine.sequencer.log.iter().enumerate() {
        assert_eq!(ev.seq_id, (i + 1) as u64, "gap at index {i}");
    }
}
