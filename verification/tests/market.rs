use clob_api::domain::market::{MarketConfig, MarketError, MarketId, MarketStatus};

/// Helper: build a minimal active market config for testing.
fn test_market() -> MarketConfig {
    MarketConfig {
        id: MarketId("BTC-USDC".into()),
        base_asset: "BTC".into(),
        quote_asset: "USDC".into(),
        tick_size: 1_000,   // price must be a multiple of 1_000
        lot_size: 1,        // size must be a multiple of 1
        fee_bps_maker: 10,  // 0.10% maker fee
        fee_bps_taker: 20,  // 0.20% taker fee
        status: MarketStatus::Active,
    }
}

#[test]
fn valid_price_passes() {
    let m = test_market();
    // 50_000_000 is divisible by 1_000, so it's valid
    assert!(m.validate_price(50_000_000).is_ok());
}

#[test]
fn market_zero_price_fails() {
    let m = test_market();
    assert!(matches!(m.validate_price(0), Err(MarketError::ZeroPrice)));
}

#[test]
fn unaligned_price_fails() {
    let m = test_market();
    // 50_000_500 % 1_000 == 500, not aligned
    assert!(matches!(
        m.validate_price(50_000_500),
        Err(MarketError::InvalidTick { .. })
    ));
}

#[test]
fn valid_size_passes() {
    let m = test_market();
    assert!(m.validate_size(10).is_ok());
}

#[test]
fn market_zero_size_fails() {
    let m = test_market();
    assert!(matches!(m.validate_size(0), Err(MarketError::ZeroSize)));
}

#[test]
fn paused_market_is_not_active() {
    let mut m = test_market();
    m.status = MarketStatus::Paused;
    assert!(!m.is_active());
}

#[test]
fn a_step_of_zero_aligns_nothing() {
    let m = MarketConfig { tick_size: 0, lot_size: 0, ..test_market() };
    assert!(matches!(m.validate_price(5), Err(MarketError::InvalidTick { price: 5, tick_size: 0 })));
    assert!(matches!(m.validate_size(5), Err(MarketError::InvalidLot { size: 5, lot_size: 0 })));
}
