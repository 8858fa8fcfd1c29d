use clob_api::clock::FixedClock;
use clob_api::domain::market::{MarketConfig, MarketId, MarketStatus};
use clob_api::domain::order::{CURRENT_SCHEMA_VERSION, Side, SignedOrder, TimeInForce};
use clob_api::engine::Engine;
use clob_api::events::{CancelReason, Event};
use clob_api::ops::admin::{cancel_all_orders, pause_market, resume_market, AdminError};
use ed25519_dalek::{Signer, SigningKey};
use rand::rngs::OsRng;

fn btc_market() -> MarketConfig {
    MarketConfig {
        id: MarketId("BTC-USDC".into()),
        base_asset: "BTC".into(),
        quote_asset: "USDC".into(),
        tick_size: 1_000,
        lot_size: 1,
        fee_bps_maker: 10,
        fee_bps_taker: 20,
        status: MarketStatus::Active,
    }
}

fn test_engine() -> Engine {
    let mut e = Engine::with_clock(
        Box::new(FixedClock(1_000_000)),
    );
    e.add_market(btc_market());
    e
}

fn place_order(engine: &mut Engine, key: &SigningKey, nonce: u64) {
    let pubkey = key.verifying_key().to_bytes();
    let mut signed = SignedOrder {
        schema_version: CURRENT_SCHEMA_VERSION,
        client_order_id: format!("cid-{nonce}"),
        market_id: MarketId("BTC-USDC".into()),
        trader_id: hex::encode(pubkey),
        side: Side::Buy,
        price_ticks: 50_000_000,
        size_lots: 1,
        time_in_force: TimeInForce::Gtc,
        nonce,
        expiry_ts_ms: 0,
        created_at_ms: 1_000_000,
        salt: 0,
        trader_pubkey: pubkey,
        signature: [0u8; 64],
    };
    let hash = signed.canonical_hash();
    signed.signature = key.sign(&hash.0).to_bytes();
    engine.process_order(signed).unwrap();
}

#[test]
fn pause_active_market_succeeds() {
    let mut engine = test_engine();
    let seq = pause_market(&mut engine, "BTC-USDC", "ops").unwrap();
    assert!(seq > 0);
    let markets = engine.list_markets();
    assert_eq!(markets[0].status, MarketStatus::Paused);
}

#[test]
fn pause_then_resume_restores_active() {
    let mut engine = test_engine();
    pause_market(&mut engine, "BTC-USDC", "ops").unwrap();
    resume_market(&mut engine, "BTC-USDC", "ops").unwrap();
    let markets = engine.list_markets();
    assert_eq!(markets[0].status, MarketStatus::Active);
}

#[test]
fn pause_already_paused_returns_error() {
    let mut engine = test_engine();
    pause_market(&mut engine, "BTC-USDC", "ops").unwrap();
    let err = pause_market(&mut engine, "BTC-USDC", "ops").unwrap_err();
    assert!(matches!(err, AdminError::AlreadyInState(_, MarketStatus::Paused)));
}

#[test]
fn resume_already_active_returns_error() {
    let mut engine = test_engine();
    let err = resume_market(&mut engine, "BTC-USDC", "ops").unwrap_err();
    assert!(matches!(err, AdminError::AlreadyInState(_, MarketStatus::Active)));
}

#[test]
fn unknown_market_returns_not_found() {
    let mut engine = test_engine();
    assert!(matches!(
        pause_market(&mut engine, "DOESNT-EXIST", "ops").unwrap_err(),
        AdminError::MarketNotFound(_)
    ));
}

#[test]
fn pause_sequences_market_paused_event() {
    let mut engine = test_engine();
    let seq = pause_market(&mut engine, "BTC-USDC", "ops-user").unwrap();
    let last_event = &engine.sequencer.log.last().unwrap().event;
    assert!(matches!(
        last_event,
        Event::MarketPaused { triggered_by, .. }
        if triggered_by == "ops-user"
    ));
    assert_eq!(engine.sequencer.log.last().unwrap().seq_id, seq);
}

#[test]
fn resume_sequences_market_resumed_event() {
    let mut engine = test_engine();
    pause_market(&mut engine, "BTC-USDC", "ops").unwrap();
    let seq = resume_market(&mut engine, "BTC-USDC", "ops").unwrap();
    let last_event = &engine.sequencer.log.last().unwrap().event;
    assert!(matches!(last_event, Event::MarketResumed { .. }));
    assert_eq!(engine.sequencer.log.last().unwrap().seq_id, seq);
}

#[test]
fn cancel_all_orders_cancels_open_orders() {
    let mut engine = test_engine();
    let key1 = SigningKey::generate(&mut OsRng);
    let key2 = SigningKey::generate(&mut OsRng);
    place_order(&mut engine, &key1, 1);
    place_order(&mut engine, &key2, 1);

    let count = cancel_all_orders(&mut engine, "BTC-USDC").unwrap();
    assert_eq!(count, 2);

    // Both orders should be cancelled in the state store.
    let cancel_count = engine
        .sequencer
        .log
        .iter()
        .filter(|se| {
            matches!(
                &se.event,
                Event::OrderCancelled {
                    reason: CancelReason::AdminForce,
                    ..
                }
            )
        })
        .count();
    assert_eq!(cancel_count, 2);
}

#[test]
fn cancel_all_unknown_market_returns_error() {
    let mut engine = test_engine();
    assert!(matches!(
        cancel_all_orders(&mut engine, "NOPE").unwrap_err(),
        AdminError::MarketNotFound(_)
    ));
}
