use clob_api::domain::market::MarketId;
use clob_api::domain::order::{CURRENT_SCHEMA_VERSION, OrderError, Side, SignedOrder, TimeInForce};
use ed25519_dalek::{Signer, SigningKey};
use rand::rngs::OsRng;

/// Build a minimal valid SignedOrder for testing validate_fields().
/// Signature is all zeros — fine for field validation tests.
/// Call verify_signature() separately in signature-specific tests.
fn make_order(price: u64, size: u64, expiry: u64) -> SignedOrder {
    SignedOrder {
        schema_version: CURRENT_SCHEMA_VERSION,
        client_order_id: "client-abc-123".into(),
        market_id: MarketId("BTC-USDC".into()),
        trader_id: "deadbeef".into(),
        side: Side::Buy,
        price_ticks: price,
        size_lots: size,
        time_in_force: TimeInForce::Gtc,
        nonce: 1,
        expiry_ts_ms: expiry,
        created_at_ms: 1_000,
        salt: 42,
        trader_pubkey: [0u8; 32],
        signature: [0u8; 64],
    }
}

// --- validate_fields tests ---

#[test]
fn valid_order_passes() {
    // expiry is well in the future relative to now_ms = 1_000
    let order = make_order(50_000, 10, 99_999_999);
    assert!(order.validate_fields(1_000).is_ok());
}

#[test]
fn expired_order_fails() {
    // expiry_ts_ms (500) <= now_ms (1_000) → should be rejected
    let order = make_order(50_000, 10, 500);
    assert!(matches!(
        order.validate_fields(1_000),
        Err(OrderError::Expired { .. })
    ));
}

#[test]
fn zero_expiry_is_no_expiry() {
    // expiry_ts_ms == 0 means "never expires"
    let order = make_order(50_000, 10, 0);
    assert!(order.validate_fields(u64::MAX).is_ok());
}

#[test]
fn order_zero_size_fails() {
    let order = make_order(50_000, 0, 99_999_999);
    assert!(matches!(
        order.validate_fields(1_000),
        Err(OrderError::ZeroSize)
    ));
}

#[test]
fn order_zero_price_fails() {
    let order = make_order(0, 10, 99_999_999);
    assert!(matches!(
        order.validate_fields(1_000),
        Err(OrderError::ZeroPrice)
    ));
}

#[test]
fn wrong_schema_version_fails() {
    let mut order = make_order(50_000, 10, 99_999_999);
    order.schema_version = 99;
    assert!(matches!(
        order.validate_fields(1_000),
        Err(OrderError::UnsupportedSchemaVersion(99))
    ));
}

#[test]
fn empty_market_id_fails() {
    let mut order = make_order(50_000, 10, 99_999_999);
    order.market_id = MarketId("".into());
    assert!(matches!(
        order.validate_fields(1_000),
        Err(OrderError::EmptyField("market_id"))
    ));
}

// --- canonical_hash tests ---

#[test]
fn hash_is_deterministic() {
    // Same order must always produce the same hash
    let order = make_order(50_000, 10, 99_999_999);
    let h1 = order.canonical_hash();
    let h2 = order.canonical_hash();
    assert_eq!(h1, h2);
}

#[test]
fn different_price_produces_different_hash() {
    let o1 = make_order(50_000, 10, 99_999_999);
    let o2 = make_order(50_001, 10, 99_999_999);
    assert_ne!(o1.canonical_hash(), o2.canonical_hash());
}

#[test]
fn different_market_id_produces_different_hash() {
    let mut o1 = make_order(50_000, 10, 99_999_999);
    let mut o2 = make_order(50_000, 10, 99_999_999);
    o1.market_id = MarketId("BTC-USDC".into());
    o2.market_id = MarketId("ETH-USDC".into());
    assert_ne!(o1.canonical_hash(), o2.canonical_hash());
}

#[test]
fn hash_to_hex_is_64_chars() {
    // SHA-256 = 32 bytes = 64 hex characters
    let order = make_order(50_000, 10, 99_999_999);
    assert_eq!(order.canonical_hash().to_hex().len(), 64);
}

// --- verify_signature tests ---
// These tests require generating real ed25519 key pairs.

#[test]
fn valid_signature_verifies() {
    let signing_key = SigningKey::generate(&mut OsRng);
    let pubkey_bytes = signing_key.verifying_key().to_bytes();

    let mut order = make_order(50_000, 10, 99_999_999);
    order.trader_pubkey = pubkey_bytes;
    order.trader_id = hex::encode(pubkey_bytes);

    // Compute the hash, then sign it
    let hash = order.canonical_hash();
    let sig = signing_key.sign(&hash.0);
    order.signature = sig.to_bytes();

    assert!(order.verify_signature().is_ok());
}

#[test]
fn tampered_order_fails_signature() {
    let signing_key = SigningKey::generate(&mut OsRng);
    let pubkey_bytes = signing_key.verifying_key().to_bytes();

    let mut order = make_order(50_000, 10, 99_999_999);
    order.trader_pubkey = pubkey_bytes;
    order.trader_id = hex::encode(pubkey_bytes);

    let hash = order.canonical_hash();
    let sig = signing_key.sign(&hash.0);
    order.signature = sig.to_bytes();

    // Tamper with the price after signing — signature should no longer verify
    order.price_ticks = 99_999;

    assert!(matches!(
        order.verify_signature(),
        Err(OrderError::InvalidSignature)
    ));
}

#[test]
fn wrong_key_fails_signature() {
    let signing_key_a = SigningKey::generate(&mut OsRng);
    let signing_key_b = SigningKey::generate(&mut OsRng);
    let pubkey_b = signing_key_b.verifying_key().to_bytes();

    let mut order = make_order(50_000, 10, 99_999_999);
    // Claim pubkey B, but sign with key A
    order.trader_pubkey = pubkey_b;
    order.trader_id = hex::encode(pubkey_b);

    let hash = order.canonical_hash();
    let sig = signing_key_a.sign(&hash.0); // signed with A, not B
    order.signature = sig.to_bytes();

    assert!(matches!(
        order.verify_signature(),
        Err(OrderError::InvalidSignature)
    ));
}
