use clob_api::clock::{Clock, FixedClock};
use clob_api::domain::market::MarketId;
use clob_api::domain::order::{Fill, OrderHash, OrderId};
use clob_api::ordmap::OrdMap;
use clob_api::risk::{MarketRiskConfig, RiskChecker, RiskConfig, RiskError};
use std::sync::{Arc, Mutex};

fn config_with_limit(max: u64, window_ms: u64) -> RiskConfig {
    RiskConfig {
        max_orders_per_window: max,
        window_ms,
        markets: OrdMap::new(),
    }
}

fn fixed_clock(ms: u64) -> Box<dyn Clock> {
    Box::new(FixedClock(ms))
}

/// A clock that a test can move.
struct MovableClock(Arc<Mutex<u64>>);

impl Clock for MovableClock {
    fn now_ms(&self) -> u64 {
        *self.0.lock().unwrap()
    }
}

#[test]
fn first_order_passes_rate_limit() {
    let mut checker = RiskChecker::with_clock(
        config_with_limit(10, 1_000),
        fixed_clock(1_000_000),
    );
    assert!(checker.check("trader-a", "BTC-USDC", 50_000, 1).is_ok());
}

#[test]
fn rate_limit_blocks_at_max() {
    let mut checker = RiskChecker::with_clock(
        config_with_limit(3, 1_000),
        fixed_clock(1_000_000),
    );
    // Submit 3 orders — all should pass.
    for _ in 0..3 {
        assert!(checker.check("trader-a", "BTC-USDC", 50_000, 1).is_ok());
    }
    // 4th should fail.
    let err = checker.check("trader-a", "BTC-USDC", 50_000, 1).unwrap_err();
    assert!(matches!(err, RiskError::RateLimitExceeded { .. }));
}

#[test]
fn rate_limit_is_per_trader() {
    let mut checker = RiskChecker::with_clock(
        config_with_limit(1, 1_000),
        fixed_clock(1_000_000),
    );
    assert!(checker.check("trader-a", "BTC-USDC", 50_000, 1).is_ok());
    // trader-b has a fresh window.
    assert!(checker.check("trader-b", "BTC-USDC", 50_000, 1).is_ok());
}

#[test]
fn rate_limit_window_rolls_over() {
    let time = 1_000_000u64;
    // Use a cell to let us advance the clock.
    let clock_time = Arc::new(Mutex::new(time));
    let ct = clock_time.clone();
    let mut checker = RiskChecker::with_clock(
        config_with_limit(2, 1_000),
        Box::new(MovableClock(ct)),
    );

    // Submit 2 — fill the window.
    checker.check("t", "M", 1, 1).unwrap();
    checker.check("t", "M", 1, 1).unwrap();

    // 3rd fails within the window.
    assert!(checker.check("t", "M", 1, 1).is_err());

    // Advance clock by 1_001ms — window expires.
    *clock_time.lock().unwrap() = time + 1_001;

    // Now it should pass again.
    assert!(checker.check("t", "M", 1, 1).is_ok());
}

#[test]
fn order_too_large_rejected() {
    let mut config = config_with_limit(100, 1_000);
    config.markets.insert("BTC-USDC".into(), MarketRiskConfig {
        max_order_size_lots: 100,
        price_band_bps: 0,
    });
    let mut checker = RiskChecker::with_clock(config, fixed_clock(1_000_000));
    let err = checker.check("trader-a", "BTC-USDC", 50_000, 101).unwrap_err();
    assert!(matches!(err, RiskError::OrderTooLarge { size_lots: 101, .. }));
}

#[test]
fn order_at_max_size_passes() {
    let mut config = config_with_limit(100, 1_000);
    config.markets.insert("BTC-USDC".into(), MarketRiskConfig {
        max_order_size_lots: 100,
        price_band_bps: 0,
    });
    let mut checker = RiskChecker::with_clock(config, fixed_clock(1_000_000));
    assert!(checker.check("trader-a", "BTC-USDC", 50_000, 100).is_ok());
}

#[test]
fn price_band_rejects_outside() {
    let mut config = config_with_limit(100, 1_000);
    config.markets.insert("BTC-USDC".into(), MarketRiskConfig {
        max_order_size_lots: u64::MAX,
        price_band_bps: 500, // 5%
    });
    let mut checker = RiskChecker::with_clock(config, fixed_clock(1_000_000));
    checker.update_reference_price("BTC-USDC", 50_000);

    // 50_000 * 5% = 2_500 band → [47_500, 52_500]
    // 53_000 is outside.
    let err = checker.check("trader-a", "BTC-USDC", 53_000, 1).unwrap_err();
    assert!(matches!(err, RiskError::PriceOutsideBand { price_ticks: 53_000, .. }));
}

#[test]
fn price_band_passes_inside() {
    let mut config = config_with_limit(100, 1_000);
    config.markets.insert("BTC-USDC".into(), MarketRiskConfig {
        max_order_size_lots: u64::MAX,
        price_band_bps: 500,
    });
    let mut checker = RiskChecker::with_clock(config, fixed_clock(1_000_000));
    checker.update_reference_price("BTC-USDC", 50_000);
    assert!(checker.check("trader-a", "BTC-USDC", 51_000, 1).is_ok());
}

#[test]
fn price_band_skipped_when_no_reference() {
    let mut config = config_with_limit(100, 1_000);
    config.markets.insert("BTC-USDC".into(), MarketRiskConfig {
        max_order_size_lots: u64::MAX,
        price_band_bps: 500,
    });
    let mut checker = RiskChecker::with_clock(config, fixed_clock(1_000_000));
    // No reference price set — band check skipped.
    assert!(checker.check("trader-a", "BTC-USDC", 999_999, 1).is_ok());
}

#[test]
fn update_reference_price_enables_band() {
    let mut config = config_with_limit(100, 1_000);
    config.markets.insert("BTC-USDC".into(), MarketRiskConfig {
        max_order_size_lots: u64::MAX,
        price_band_bps: 100, // 1%
    });
    let mut checker = RiskChecker::with_clock(config, fixed_clock(1_000_000));
    // Before reference is set, any price passes.
    assert!(checker.check("trader-a", "BTC-USDC", 1, 1).is_ok());

    // Set reference.
    checker.update_reference_price("BTC-USDC", 50_000);
    // Now 1 is way outside the 1% band.
    let err = checker.check("trader-b", "BTC-USDC", 1, 1).unwrap_err();
    assert!(matches!(err, RiskError::PriceOutsideBand { .. }));
}

#[test]
fn refused_orders_are_not_counted() {
    let mut config = config_with_limit(2, 1_000);
    config.markets.insert("M".into(), MarketRiskConfig { max_order_size_lots: 10, price_band_bps: 0 });
    let mut checker = RiskChecker::with_clock(config, fixed_clock(5));
    for _ in 0..5 {
        assert!(checker.check("t", "M", 1, 11).is_err());
    }
    assert!(checker.check("t", "M", 1, 10).is_ok());
    assert!(checker.check("t", "M", 1, 10).is_ok());
    assert!(matches!(
        checker.check("t", "M", 1, 10),
        Err(RiskError::RateLimitExceeded { count: 2, max: 2, window_ms: 1_000, .. })
    ));
}

#[test]
fn window_of_a_given_time() {
    let mut checker = RiskChecker::with_clock(config_with_limit(1, 10), fixed_clock(0));
    assert!(checker.check_at(100, "t", "M", 1, 1).is_ok());
    assert!(checker.check_at(110, "t", "M", 1, 1).is_err());
    assert!(checker.check_at(111, "t", "M", 1, 1).is_ok());
}

#[test]
fn price_band_edges() {
    let mut config = config_with_limit(100, 1_000);
    config.markets.insert("M".into(), MarketRiskConfig { max_order_size_lots: u64::MAX, price_band_bps: 500 });
    let mut checker = RiskChecker::with_clock(config.clone(), fixed_clock(0));
    checker.update_reference_price("M", 50_000);
    for (price, ok) in [(47_499, false), (47_500, true), (50_000, true), (52_500, true), (52_501, false)] {
        assert_eq!(checker.check("t", "M", price, 1).is_ok(), ok);
    }
    // The product is capped at 2^64 - 1.
    checker.update_reference_price("M", u64::MAX);
    let width = u64::MAX / 10_000;
    assert!(checker.check("t", "M", u64::MAX - width, 1).is_ok());
    assert!(checker.check("t", "M", u64::MAX - width - 1, 1).is_err());
    assert_eq!(config.markets.get("M").unwrap().price_band_bps, 500);
}

#[test]
fn fills_set_the_reference_price() {
    let fill = |market: &str, price_ticks| Fill {
        market_id: MarketId(market.into()),
        taker_order_id: OrderId("t".into()),
        taker_order_hash: OrderHash([0; 32]),
        taker_trader_id: "a".into(),
        maker_order_id: OrderId("m".into()),
        maker_order_hash: OrderHash([1; 32]),
        maker_trader_id: "b".into(),
        price_ticks,
        size_lots: 1,
        sequence_id: 1,
        executed_at_ms: 1,
    };
    let mut config = config_with_limit(100, 1_000);
    config.markets.insert("M".into(), MarketRiskConfig { max_order_size_lots: 10, price_band_bps: 1 });
    let mut checker = RiskChecker::with_clock(config, fixed_clock(0));
    checker.note_fills(&vec![fill("M", 10), fill("N", 99), fill("M", 20)]);
    assert!(checker.check("t", "M", 20, 1).is_ok());
    assert!(matches!(
        checker.check("t", "M", 10, 1),
        Err(RiskError::PriceOutsideBand { reference_ticks: 20, .. })
    ));
}

#[test]
fn default_limits() {
    let config = RiskConfig::default();
    assert_eq!((config.max_orders_per_window, config.window_ms), (100, 1_000));
    assert!(config.markets.is_empty());
    let market = MarketRiskConfig::default();
    assert_eq!((market.max_order_size_lots, market.price_band_bps), (1_000_000, 0));
}
