use clob_api::domain::market::{MarketConfig, MarketId, MarketStatus};
use clob_api::domain::order::{Order, OrderHash, OrderId, OrderStatus, Side, TimeInForce};
use clob_api::events::{Event, SequencedEvent};
use clob_api::replay::replay;
use clob_api::snapshot::{create_snapshot, find_latest_snapshot, load_snapshot, parse_snapshot_file_name, snapshot_file_name, snapshot_path, SnapshotError};

fn btc_market() -> MarketConfig {
    MarketConfig {
        id: MarketId("BTC-USDC".into()),
        base_asset: "BTC".into(),
        quote_asset: "USDC".into(),
        tick_size: 1_000,
        lot_size: 1,
        fee_bps_maker: 10,
        fee_bps_taker: 20,
        status: MarketStatus::Active,
    }
}

fn accepted_event(seq: u64) -> SequencedEvent {
    let order = Order {
        order_id: OrderId(format!("o{seq}")),
        client_order_id: format!("cid-{seq}"),
        order_hash: OrderHash([seq as u8; 32]),
        market_id: MarketId("BTC-USDC".into()),
        trader_id: "trader-a".into(),
        trader_pubkey: [0u8; 32],
        side: Side::Buy,
        price_ticks: 50_000_000,
        orig_size_lots: 10,
        filled_size_lots: 0,
        time_in_force: TimeInForce::Gtc,
        nonce: seq,
        expiry_ts_ms: 0,
        status: OrderStatus::Open,
        created_sequence: seq,
        last_update_sequence: seq,
        accepted_at_ms: 1_000_000,
    };
    SequencedEvent {
        seq_id: seq,
        timestamp_ms: 1_000_000 + seq,
        event: Event::OrderAccepted { order },
    }
}

#[test]
fn create_and_load_roundtrip() {
    let events = vec![accepted_event(1), accepted_event(2)];
    let markets = vec![btc_market()];

    // Build real checksum by replaying first.
    let result = replay(&events).unwrap();
    let checksum = result.state.checksum();

    let snap = create_snapshot(&events, &markets, checksum);

    let (loaded, loaded_markets, snapshot_seq) = load_snapshot(snap).unwrap();
    assert_eq!(snapshot_seq, 2);
    assert_eq!(loaded_markets.len(), 1);
    assert_eq!(loaded_markets[0].id.0, "BTC-USDC");
    // Both orders still open and on the book.
    let book = loaded.books.get("BTC-USDC").unwrap();
    assert_eq!(book.best_bid(), Some(50_000_000));

    // Checksum of reloaded state must match what was stored.
    assert_eq!(loaded.state.checksum(), checksum);
}

#[test]
fn load_detects_checksum_mismatch() {
    let events = vec![accepted_event(1)];
    let markets = vec![btc_market()];

    // Store a wrong checksum.
    let wrong_checksum = [0xffu8; 32];
    let snap = create_snapshot(&events, &markets, wrong_checksum);

    let err = load_snapshot(snap).unwrap_err();
    assert!(matches!(err, SnapshotError::ChecksumMismatch { .. }));
}

#[test]
fn load_detects_unsupported_version() {
    let events = vec![accepted_event(1)];
    let markets = vec![btc_market()];
    let result = replay(&events).unwrap();
    let mut snap = create_snapshot(&events, &markets, result.state.checksum());

    // Overwrite the schema_version.
    snap.schema_version = 999;

    let err = load_snapshot(snap).unwrap_err();
    assert!(matches!(err, SnapshotError::UnsupportedVersion { found: 999 }));
}

#[test]
fn find_latest_snapshot_returns_highest_seq() {
    // Snapshots for seq 10 and 20.
    let names = vec![snapshot_file_name(10), snapshot_file_name(20)];

    let latest = find_latest_snapshot(&names).unwrap();
    assert!(names[latest].contains("snapshot_20"));
}

#[test]
fn empty_dir_returns_none() {
    let names: Vec<String> = vec![];
    assert!(find_latest_snapshot(&names).is_none());
}

#[test]
fn snapshot_path_ends_in_the_file_name() {
    let separator = std::path::MAIN_SEPARATOR;
    assert_eq!(snapshot_path("snapshots", 7), format!("snapshots{separator}snapshot_7.json"));
    assert_eq!(snapshot_path("/d", 10), format!("/d{separator}snapshot_10.json"));
    assert_eq!(snapshot_path("/d/", 10), "/d/snapshot_10.json");
}

#[test]
fn file_names_that_are_no_snapshots_are_passed_over() {
    assert_eq!(parse_snapshot_file_name("snapshot_18446744073709551615.json"), Some(u64::MAX));
    assert_eq!(parse_snapshot_file_name("snapshot_18446744073709551616.json"), None);
    assert_eq!(parse_snapshot_file_name("snapshot_+5.json"), Some(5));
    assert_eq!(parse_snapshot_file_name("snapshot_.json"), None);
    assert_eq!(parse_snapshot_file_name("snapshot_5.tmp"), None);
    assert_eq!(parse_snapshot_file_name("snapshot_5x.json"), None);
    assert_eq!(parse_snapshot_file_name("other.json"), None);

    let names = vec!["notes.json".to_string(), snapshot_file_name(3), "snapshot_x.json".to_string()];
    assert_eq!(find_latest_snapshot(&names), Some(1));
}

#[test]
fn file_name_round_trip() {
    for seq in [0u64, 7, 10, 123_456, u64::MAX] {
        assert_eq!(parse_snapshot_file_name(&snapshot_file_name(seq)), Some(seq));
    }
    assert_eq!(snapshot_file_name(120), "snapshot_120.json");
}

#[test]
fn snapshot_of_an_unreplayable_log_is_refused() {
    let events = vec![accepted_event(1), accepted_event(3)];
    let snap = create_snapshot(&events, &[], [0u8; 32]);
    let err = load_snapshot(snap).unwrap_err();
    assert!(matches!(err, SnapshotError::ReplayFailed(_)));
    assert_eq!(err.message(), "replay failed: seq_id gap: expected 2, got 3");
}

#[test]
fn snapshot_of_an_empty_log() {
    let snap = create_snapshot(&[], &[], [0xabu8; 32]);
    assert_eq!(snap.snapshot_seq, 0);
    assert_eq!(snap.schema_version, 1);
    assert_eq!(snap.state_checksum, "ab".repeat(32));
    assert!(snap.events.is_empty());
}

#[test]
fn snapshot_error_messages() {
    let version = SnapshotError::UnsupportedVersion { found: 9 };
    assert_eq!(version.message(), "unsupported snapshot schema version 9 (expected 1)");
    let sum = SnapshotError::ChecksumMismatch { stored: "aa".into(), computed: "bb".into() };
    assert_eq!(sum.message(), "checksum mismatch: stored aa, computed bb");
}
