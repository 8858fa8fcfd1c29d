use clob_api::domain::market::MarketId;
use clob_api::domain::order::{Order, OrderHash, OrderId, OrderStatus, Side, TimeInForce};
use clob_api::events::{Event, SequencedEvent};
use clob_api::sequencer::Sequencer;

fn pause_event() -> Event {
    Event::MarketPaused {
        market_id: MarketId("BTC-USDC".into()),
        triggered_by: "test".into(),
    }
}

#[test]
fn seq_ids_start_at_one() {
    let mut seq = Sequencer::new();
    let ev = seq.append_event(pause_event());
    assert_eq!(ev.seq_id, 1);
}

#[test]
fn seq_ids_are_strictly_increasing() {
    let mut seq = Sequencer::new();
    let e1 = seq.append_event(pause_event()).seq_id;
    let e2 = seq.append_event(pause_event()).seq_id;
    let e3 = seq.append_event(pause_event()).seq_id;
    assert_eq!(e1, 1);
    assert_eq!(e2, 2);
    assert_eq!(e3, 3);
}

#[test]
fn seq_ids_have_no_gaps() {
    let mut seq = Sequencer::new();
    for _ in 0..100 {
        seq.append_event(pause_event());
    }
    // All seq_ids from 1..=100 must appear in order
    for (i, ev) in seq.log.iter().enumerate() {
        assert_eq!(ev.seq_id, (i + 1) as u64);
    }
}

#[test]
fn peek_does_not_advance_counter() {
    let mut seq = Sequencer::new();
    assert_eq!(seq.peek_next_seq_id(), 1);
    assert_eq!(seq.peek_next_seq_id(), 1); // still 1
    seq.append_event(pause_event());
    assert_eq!(seq.peek_next_seq_id(), 2); // now advanced
}

#[test]
fn idempotency_check_returns_none_for_new_key() {
    let seq = Sequencer::new();
    assert!(seq.idempotency_check("trader-1", "order-abc").is_none());
}

#[test]
fn idempotency_check_returns_record_after_registration() {
    let mut seq = Sequencer::new();
    seq.register_accepted("trader-1", "order-abc", 5, OrderId("oid-1".into()), OrderHash([0u8; 32]), 1_000_000);

    let record = seq.idempotency_check("trader-1", "order-abc");
    assert!(record.is_some());
    assert_eq!(record.unwrap().original_seq_id, 5);
}

#[test]
fn idempotency_is_keyed_by_trader_and_client_order_id() {
    let mut seq = Sequencer::new();
    seq.register_accepted("trader-1", "order-abc", 1, OrderId("oid-1".into()), OrderHash([0u8; 32]), 0);
    seq.register_accepted("trader-2", "order-abc", 2, OrderId("oid-2".into()), OrderHash([0u8; 32]), 0);

    // Same client_order_id but different trader_id — these are separate
    assert_eq!(seq.idempotency_check("trader-1", "order-abc").unwrap().original_seq_id, 1);
    assert_eq!(seq.idempotency_check("trader-2", "order-abc").unwrap().original_seq_id, 2);
    assert!(seq.idempotency_check("trader-3", "order-abc").is_none());
}

#[test]
fn log_is_append_only() {
    let mut seq = Sequencer::new();
    seq.append_event(pause_event());
    seq.append_event(pause_event());
    seq.append_event(pause_event());

    // Log should have exactly 3 entries, in order
    assert_eq!(seq.len(), 3);
    assert_eq!(seq.log[0].seq_id, 1);
    assert_eq!(seq.log[1].seq_id, 2);
    assert_eq!(seq.log[2].seq_id, 3);
}

#[test]
fn resume_rebuilds_idempotency_from_existing_log() {
    // Simulate a crash-recovery scenario: we have an existing log from
    // a previous session with one accepted order.


    let order = Order {
        order_id: OrderId("oid-1".into()),
        client_order_id: "client-1".into(),
        order_hash: OrderHash([0u8; 32]),
        market_id: MarketId("BTC-USDC".into()),
        trader_id: "trader-1".into(),
        trader_pubkey: [0u8; 32],
        side: Side::Buy,
        price_ticks: 1000,
        orig_size_lots: 10,
        filled_size_lots: 0,
        time_in_force: TimeInForce::Gtc,
        nonce: 1,
        expiry_ts_ms: 0,
        status: OrderStatus::Open,
        created_sequence: 1,
        last_update_sequence: 1,
        accepted_at_ms: 1_000_000,
    };

    let prior_log = vec![SequencedEvent {
        seq_id: 1,
        timestamp_ms: 1_000_000,
        event: Event::OrderAccepted { order },
    }];

    // Resume from seq_id 2 (next after the existing log)
    let seq = Sequencer::resume(2, prior_log);

    // Idempotency should be rebuilt: trader-1 / client-1 is already known
    let record = seq.idempotency_check("trader-1", "client-1");
    assert!(record.is_some());
    assert_eq!(record.unwrap().original_seq_id, 1);

    // Next seq_id should pick up where the log left off
    assert_eq!(seq.peek_next_seq_id(), 2);
}
