use clob_api::api::rest::{admin_err_to_response, cancel_err_to_response, engine_err_to_response, risk_err_to_response};
use clob_api::db::{InsufficientFunds, NonceError};
use clob_api::domain::market::{MarketError, MarketStatus};
use clob_api::domain::order::{OrderError, OrderId};
use clob_api::engine::{CancelError, EngineError};
use clob_api::ops::admin::AdminError;
use clob_api::replay::ReplayError;
use clob_api::risk::RiskError;

#[test]
fn market_messages() {
    assert_eq!(MarketError::ZeroPrice.message(), "price must be positive (got 0)");
    assert_eq!(MarketError::ZeroSize.message(), "size must be positive (got 0)");
    assert_eq!(
        MarketError::InvalidTick { price: 7, tick_size: 5 }.message(),
        "price 7 is not aligned to tick_size 5 (price % tick_size != 0)"
    );
    assert_eq!(
        MarketError::InvalidLot { size: 7, lot_size: 5 }.message(),
        "size 7 is not aligned to lot_size 5 (size % lot_size != 0)"
    );
    assert_eq!(MarketError::NotActive.message(), "market is not active");
    assert_eq!(MarketError::NotFound("X".into()).message(), "market not found: X");
}

#[test]
fn order_errors_become_responses() {
    let cases = vec![
        (OrderError::InvalidSignature, 401, "INVALID_SIGNATURE", "ed25519 signature verification failed"),
        (OrderError::InvalidPublicKey, 400, "INVALID_PUBLIC_KEY", "trader_pubkey is not a valid ed25519 public key"),
        (OrderError::TraderIdMismatch, 400, "TRADER_ID_MISMATCH", "trader_id does not match hex(trader_pubkey)"),
        (OrderError::MarketNotFound("M".into()), 404, "MARKET_NOT_FOUND", "market 'M' not found"),
        (OrderError::MarketNotActive("M".into()), 409, "MARKET_HALTED", "market 'M' is not active"),
        (OrderError::InvalidTick { price: 3, tick_size: 2 }, 400, "INVALID_TICK_SIZE", "price 3 not aligned to tick_size 2"),
        (OrderError::InvalidLot { size: 3, lot_size: 2 }, 400, "INVALID_LOT_SIZE", "size 3 not aligned to lot_size 2"),
        (OrderError::Expired { expiry_ts_ms: 1, now_ms: 2 }, 400, "ORDER_EXPIRED", "order expired: expiry_ts_ms=1 <= now_ms=2"),
        (OrderError::ZeroPrice, 400, "ZERO_PRICE", "price_ticks must be > 0"),
        (OrderError::ZeroSize, 400, "ZERO_SIZE", "size_lots must be > 0"),
        (OrderError::UnsupportedSchemaVersion(9), 400, "UNSUPPORTED_SCHEMA_VERSION", "unsupported schema_version 9 (engine expects 1)"),
        (OrderError::EmptyField("market_id"), 400, "EMPTY_FIELD", "field 'market_id' must not be empty"),
        (
            OrderError::NonceInvalid { nonce: 1, last_nonce: 2 },
            400,
            "NONCE_INVALID",
            "nonce 1 is not > last accepted nonce 2 for this trader",
        ),
        (
            OrderError::DuplicateClientOrderId("c".into()),
            409,
            "DUPLICATE_CLIENT_ORDER_ID",
            "client_order_id 'c' has already been used by this trader",
        ),
    ];
    for (error, status, code, message) in cases {
        assert_eq!(error.message(), message);
        let said = engine_err_to_response(EngineError::Order(error));
        assert_eq!(said.0, status);
        assert_eq!(said.1.code, code);
        assert_eq!(said.1.message, format!("order validation failed: {message}"));
    }
}

#[test]
fn nonce_errors_become_responses() {
    let said = engine_err_to_response(EngineError::Nonce(NonceError { last_nonce: 5, submitted: 4 }));
    assert_eq!(said.0, 400);
    assert_eq!(said.1.code, "NONCE_INVALID");
    assert_eq!(said.1.message, "nonce 4 is not > last accepted nonce 5");
    let outer = EngineError::Nonce(NonceError { last_nonce: 5, submitted: 4 });
    assert_eq!(outer.message(), "nonce rejected: nonce 4 is not > last accepted nonce 5");
    let funds = InsufficientFunds { available: 1, required: 2 };
    assert_eq!(funds.message(), "insufficient balance: required 2, available 1");
}

#[test]
fn risk_errors_become_responses() {
    let often = risk_err_to_response(RiskError::RateLimitExceeded {
        trader_id: "t".into(),
        count: 3,
        window_ms: 1000,
        max: 2,
    });
    assert_eq!((often.0, often.1.code), (429, "RATE_LIMIT_EXCEEDED"));
    assert_eq!(often.1.message, "rate limit exceeded: trader 't' submitted 3 orders in 1000ms (max 2)");
    let large = risk_err_to_response(RiskError::OrderTooLarge { market_id: "M".into(), size_lots: 9, max_lots: 8 });
    assert_eq!((large.0, large.1.code), (400, "ORDER_TOO_LARGE"));
    assert_eq!(large.1.message, "order size 9 exceeds max allowed 8 for market 'M'");
    let band = risk_err_to_response(RiskError::PriceOutsideBand {
        market_id: "M".into(),
        price_ticks: 1,
        reference_ticks: 2,
        band_bps: 3,
    });
    assert_eq!((band.0, band.1.code), (400, "PRICE_OUTSIDE_BAND"));
    assert_eq!(band.1.message, "price 1 is outside the 3bps band around reference price 2 for market 'M'");
}

#[test]
fn admin_errors_become_responses() {
    let missing = admin_err_to_response(AdminError::MarketNotFound("M".into()));
    assert_eq!((missing.0, missing.1.code), (404, "MARKET_NOT_FOUND"));
    assert_eq!(missing.1.message, "market 'M' not found");
    for (status, name) in [(MarketStatus::Active, "Active"), (MarketStatus::Paused, "Paused"), (MarketStatus::Settled, "Settled")] {
        let already = admin_err_to_response(AdminError::AlreadyInState("M".into(), status));
        assert_eq!((already.0, already.1.code), (409, "ALREADY_IN_STATE"));
        assert_eq!(already.1.message, format!("market 'M' is already {name}"));
    }
    let settled = admin_err_to_response(AdminError::Settled("M".into()));
    assert_eq!((settled.0, settled.1.code), (409, "MARKET_SETTLED"));
    assert_eq!(settled.1.message, "market 'M' is settled — cannot be modified");
}

#[test]
fn cancel_errors_become_responses() {
    let missing = cancel_err_to_response(CancelError::NotFound("o".into()));
    assert_eq!((missing.0, missing.1.code), (404, "ORDER_NOT_FOUND"));
    assert_eq!(missing.1.message, "order o not found");
    let foreign = cancel_err_to_response(CancelError::Unauthorized("t".into()));
    assert_eq!((foreign.0, foreign.1.code), (403, "UNAUTHORIZED_CANCEL"));
    assert_eq!(foreign.1.message, "trader t does not own this order");
    assert_eq!(CancelError::NotFound("o".into()).message(), "order not found: o");
    assert_eq!(CancelError::Unauthorized("t".into()).message(), "trader 't' does not own this order");
}

#[test]
fn replay_messages_quote_the_order() {
    let unknown = ReplayError::UnknownOrder(OrderId("a\"b".into()));
    assert_eq!(unknown.message(), "event references unknown order_id OrderId(\"a\\\"b\")");
    assert_eq!(ReplayError::SeqIdGap { expected: 2, got: 5 }.message(), "seq_id gap: expected 2, got 5");
}
