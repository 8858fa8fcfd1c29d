use clob_api::api::ws::{handle_client_message, handle_frame, handle_received, replay_history, ClientMsg, Frame, Received, ServerMsg, Subscriptions};
use clob_api::api::{events_from, events_since, WsEnvelope};
use clob_api::domain::market::MarketId;
use clob_api::domain::order::{Fill, Order, OrderHash, OrderId, OrderStatus, Side, TimeInForce};
use clob_api::events::{event_type_tag, CancelReason, Event, SequencedEvent};
use serde_json::Value;

#[test]
fn ws_envelope_order_accepted_fans_out_to_two_channels() {
    let order = Order {
        order_id: OrderId("o1".into()),
        client_order_id: "cid".into(),
        order_hash: OrderHash([0u8; 32]),
        market_id: MarketId("BTC-USDC".into()),
        trader_id: "trader-a".into(),
        trader_pubkey: [0u8; 32],
        side: Side::Buy,
        price_ticks: 100,
        orig_size_lots: 10,
        filled_size_lots: 0,
        time_in_force: TimeInForce::Gtc,
        nonce: 1,
        expiry_ts_ms: 0,
        status: OrderStatus::Open,
        created_sequence: 1,
        last_update_sequence: 1,
        accepted_at_ms: 1_000_000,
    };

    let se = SequencedEvent {
        seq_id: 1,
        timestamp_ms: 1_000_000,
        event: Event::OrderAccepted { order },
    };

    let envelopes = WsEnvelope::from_sequenced(&se, Some(Value::Null));
    assert_eq!(envelopes.len(), 2);
    let channels: Vec<&str> = envelopes.iter().map(|e| e.channel.as_str()).collect();
    assert!(channels.contains(&"book.l3.BTC-USDC"));
    assert!(channels.contains(&"orders.trader-a"));
}

#[test]
fn ws_envelope_fill_fans_out_to_three_channels() {
    let fill = Fill {
        market_id: MarketId("BTC-USDC".into()),
        taker_order_id: OrderId("t1".into()),
        taker_order_hash: OrderHash([1u8; 32]),
        taker_trader_id: "trader-a".into(),
        maker_order_id: OrderId("m1".into()),
        maker_order_hash: OrderHash([2u8; 32]),
        maker_trader_id: "trader-b".into(),
        price_ticks: 100,
        size_lots: 5,
        sequence_id: 3,
        executed_at_ms: 1_000_003,
    };

    let se = SequencedEvent {
        seq_id: 3,
        timestamp_ms: 1_000_003,
        event: Event::Fill(fill),
    };

    let envelopes = WsEnvelope::from_sequenced(&se, Some(Value::Null));
    assert_eq!(envelopes.len(), 3); // trades.BTC-USDC, orders.trader-a, orders.trader-b
    let channels: Vec<&str> = envelopes.iter().map(|e| e.channel.as_str()).collect();
    assert!(channels.contains(&"trades.BTC-USDC"));
    assert!(channels.contains(&"orders.trader-a"));
    assert!(channels.contains(&"orders.trader-b"));
}

#[test]
fn ws_envelope_fill_same_trader_deduplicates() {
    let fill = Fill {
        market_id: MarketId("BTC-USDC".into()),
        taker_order_id: OrderId("t1".into()),
        taker_order_hash: OrderHash([1u8; 32]),
        taker_trader_id: "same-trader".into(),
        maker_order_id: OrderId("m1".into()),
        maker_order_hash: OrderHash([2u8; 32]),
        maker_trader_id: "same-trader".into(), // same as taker
        price_ticks: 100,
        size_lots: 5,
        sequence_id: 3,
        executed_at_ms: 1_000_003,
    };

    let se = SequencedEvent {
        seq_id: 3,
        timestamp_ms: 1_000_003,
        event: Event::Fill(fill),
    };

    let envelopes = WsEnvelope::from_sequenced(&se, Some(Value::Null));
    // trades.BTC-USDC + orders.same-trader (not doubled for taker+maker)
    assert_eq!(envelopes.len(), 2);
}

fn event(seq_id: u64, event: Event) -> SequencedEvent {
    SequencedEvent { seq_id, timestamp_ms: seq_id + 100, event }
}

fn paused(market: &str) -> Event {
    Event::MarketPaused { market_id: MarketId(market.into()), triggered_by: "ops".into() }
}

#[test]
fn events_and_their_channels() {
    let cases = vec![
        (paused("M"), "market_paused", "market.M"),
        (
            Event::MarketResumed { market_id: MarketId("M".into()), triggered_by: "ops".into() },
            "market_resumed",
            "market.M",
        ),
        (
            Event::OrderRejected { client_order_id: "c".into(), trader_id: "t".into(), reason: "r".into() },
            "order_rejected",
            "orders.t",
        ),
        (
            Event::OrderCancelled {
                order_id: OrderId("o".into()),
                order_hash: OrderHash([0; 32]),
                reason: CancelReason::TraderRequest,
            },
            "order_cancelled",
            "cancels",
        ),
    ];
    for (event_itself, tag, channel) in cases {
        assert_eq!(event_type_tag(&event_itself), tag);
        let se = event(7, event_itself);
        let envelopes = WsEnvelope::from_sequenced(&se, Some(Value::Bool(true)));
        assert_eq!(envelopes.len(), 1);
        assert_eq!(envelopes[0].channel, channel);
        assert_eq!(envelopes[0].event_type, tag);
        assert_eq!(envelopes[0].sequence_id, 7);
        assert_eq!(envelopes[0].timestamp_ms, 107);
        assert_eq!(envelopes[0].payload, Value::Bool(true));
        assert_eq!(envelopes[0].clone().payload, Value::Bool(true));
        assert!(WsEnvelope::from_sequenced(&se, None).is_empty());
    }
}

#[test]
fn market_of_an_event() {
    assert_eq!(paused("M").market_id().unwrap().0, "M");
    let rejected = Event::OrderRejected { client_order_id: "c".into(), trader_id: "t".into(), reason: "r".into() };
    assert!(rejected.market_id().is_none());
}

#[test]
fn events_after_and_from_a_number() {
    let log = vec![event(1, paused("M")), event(2, paused("M")), event(3, paused("M"))];
    let numbers = |events: Vec<SequencedEvent>| events.iter().map(|e| e.seq_id).collect::<Vec<_>>();
    assert_eq!(numbers(events_since(&log, 1)), vec![2, 3]);
    assert_eq!(numbers(events_since(&log, 0)), vec![1, 2, 3]);
    assert_eq!(numbers(events_since(&log, u64::MAX)), Vec::<u64>::new());
    assert_eq!(numbers(events_from(&log, 3)), vec![3]);
}

#[test]
fn subscriptions_follow_the_client() {
    let mut subs = Subscriptions::new();
    let step = handle_client_message(
        Ok(ClientMsg::Subscribe { channel: "trades.M".into(), from_seq: 0 }),
        &mut subs,
    );
    assert!(step.history.is_none());
    assert!(matches!(step.reply, ServerMsg::Subscribed { channel } if channel == "trades.M"));
    assert!(subs.contains("trades.M"));

    let step = handle_client_message(
        Ok(ClientMsg::Subscribe { channel: "cancels".into(), from_seq: 42 }),
        &mut subs,
    );
    assert_eq!(step.history, Some(("cancels".to_string(), 42)));

    let step = handle_client_message(Ok(ClientMsg::Unsubscribe { channel: "trades.M".into() }), &mut subs);
    assert!(matches!(step.reply, ServerMsg::Unsubscribed { channel } if channel == "trades.M"));
    assert!(!subs.contains("trades.M"));
    assert!(subs.contains("cancels"));

    let step = handle_client_message(Ok(ClientMsg::Ping), &mut subs);
    assert!(matches!(step.reply, ServerMsg::Pong));
    let step = handle_client_message(Err("bad".into()), &mut subs);
    assert!(matches!(
        step.reply,
        ServerMsg::Error { code: "PARSE_ERROR", message } if message == "could not parse message: bad"
    ));
}

#[test]
fn envelopes_are_forwarded_where_subscribed() {
    let mut subs = Subscriptions::new();
    handle_client_message(Ok(ClientMsg::Subscribe { channel: "market.M".into(), from_seq: 0 }), &mut subs);
    let envelope = |market: &str| {
        Received::Envelope(WsEnvelope::from_sequenced(&event(1, paused(market)), Some(Value::Null)).remove(0))
    };
    let step = handle_received(envelope("M"), &subs);
    assert!(matches!(step.send, Some(ServerMsg::Event(e)) if e.channel == "market.M"));
    assert!(!step.close);
    let step = handle_received(envelope("N"), &subs);
    assert!(step.send.is_none() && !step.close);
    let step = handle_received(Received::Lagged, &subs);
    assert!(matches!(step.send, Some(ServerMsg::Disconnected { reason: "lagged" })));
    assert!(step.close);
    let step = handle_received(Received::Closed, &subs);
    assert!(step.send.is_none() && step.close);
}

#[test]
fn history_is_what_was_published_on_the_channel() {
    let log = vec![
        (event(1, paused("M")), Some(Value::Null)),
        (event(2, paused("N")), Some(Value::Null)),
        (event(3, paused("M")), None),
        (event(4, paused("M")), Some(Value::Null)),
        (event(5, paused("M")), Some(Value::Null)),
    ];
    let numbers = |from| {
        replay_history(&log, "market.M", from)
            .iter()
            .map(|m| match m {
                ServerMsg::Event(e) => e.sequence_id,
                _ => panic!("an event was expected"),
            })
            .collect::<Vec<_>>()
    };
    assert_eq!(numbers(1), vec![1, 4, 5]);
    assert_eq!(numbers(5), vec![5]);
    assert!(replay_history(&log, "market.X", 1).is_empty());
}

#[test]
fn frames_of_a_connection() {
    let mut subs = Subscriptions::new();
    let text = Frame::Text(Ok(ClientMsg::Subscribe { channel: "cancels".into(), from_seq: 0 }));
    let step = handle_frame(text, &mut subs).unwrap().unwrap();
    assert!(matches!(step.reply, ServerMsg::Subscribed { .. }));
    assert!(subs.contains("cancels"));
    assert!(handle_frame(Frame::Other, &mut subs).unwrap().is_none());
    assert!(handle_frame(Frame::Close, &mut subs).is_err());
    assert!(handle_frame(Frame::Gone, &mut subs).is_err());
    assert!(subs.contains("cancels"));
}
