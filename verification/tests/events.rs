use clob_api::domain::market::MarketId;
use clob_api::events::{Event, SequencedEvent};

#[test]
fn sequenced_event_has_correct_seq_id() {
    let event = SequencedEvent {
        seq_id: 42,
        timestamp_ms: 1_000_000,
        event: Event::MarketResumed {
            market_id: MarketId("ETH-USDC".into()),
            triggered_by: "ops".into(),
        },
    };
    assert_eq!(event.seq_id, 42);
}
