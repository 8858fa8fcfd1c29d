use clob_api::api::rest as api;
use clob_api::cli::{make_order, trader_id};
use clob_api::clock::FixedClock;
use clob_api::domain::market::{MarketConfig, MarketId, MarketStatus};
use clob_api::domain::order::{OrderError, OrderHash, OrderId, OrderStatus, Side, SignedOrder};
use clob_api::engine::{CancelError, Engine, EngineError};
use clob_api::events::{CancelReason, Event, SequencedEvent};
use clob_api::ops::admin::{cancel_all_orders, pause_market, resume_market, AdminError};
use clob_api::replay::{log_accepts_sane, replay, try_replay, ReplayError};
use clob_api::risk::{RiskChecker, RiskConfig};
use clob_api::snapshot::{create_snapshot, load_snapshot};

const ALICE: [u8; 32] = [1; 32];
const BOB: [u8; 32] = [2; 32];
const CAROL: [u8; 32] = [3; 32];

fn market(id: &str, tick_size: u64, lot_size: u64) -> MarketConfig {
    MarketConfig {
        id: MarketId(id.into()),
        base_asset: "BTC".into(),
        quote_asset: "USDC".into(),
        tick_size,
        lot_size,
        fee_bps_maker: 10,
        fee_bps_taker: 20,
        status: MarketStatus::Active,
    }
}

fn engine() -> Engine {
    let mut e = Engine::with_clock(Box::new(FixedClock(1_000_000)));
    e.add_market(market("M", 1, 1));
    e
}

fn signed(who: &[u8; 32], side: Side, price: u64, size: u64, nonce: u64) -> SignedOrder {
    make_order(who, "M".into(), side, price, size, format!("c{nonce}"), nonce, 5, nonce)
}

fn levels(e: &Engine) -> (Vec<(u64, u64, usize)>, Vec<(u64, u64, usize)>) {
    let (bids, asks) = e.l2_snapshot("M", 100).unwrap();
    (
        bids.iter().map(|l| (l.price, l.total_qty, l.order_count)).collect(),
        asks.iter().map(|l| (l.price, l.total_qty, l.order_count)).collect(),
    )
}

fn copy(log: &[SequencedEvent]) -> Vec<SequencedEvent> {
    log.to_vec()
}

/// A run with fills, partial fills, a cancel, self-trade prevention and a pause.
fn busy_engine() -> Engine {
    let mut e = engine();
    let a = e.process_order(signed(&ALICE, Side::Sell, 100, 10, 1)).unwrap();
    e.process_order(signed(&ALICE, Side::Sell, 101, 5, 2)).unwrap();
    e.process_order(signed(&CAROL, Side::Sell, 100, 7, 1)).unwrap();
    let taker = e.process_order(signed(&BOB, Side::Buy, 100, 12, 1)).unwrap();
    assert_eq!(taker.fills.len(), 2);
    assert_eq!(taker.fills[0].maker_order_id, a.order_id);
    e.process_order(signed(&BOB, Side::Buy, 99, 4, 2)).unwrap();
    let stopped = e.process_order(signed(&CAROL, Side::Buy, 100, 3, 2)).unwrap();
    assert_eq!(stopped.final_status, OrderStatus::CancelledStp);
    let c = e.process_order(signed(&BOB, Side::Buy, 98, 4, 3)).unwrap();
    e.process_cancel(&c.order_id, &trader_id(&BOB)).unwrap();
    pause_market(&mut e, "M", "ops").unwrap();
    resume_market(&mut e, "M", "ops").unwrap();
    e
}

#[test]
fn restore_rebuilds_a_busy_engine() {
    let e = busy_engine();
    let mut fresh = engine();
    fresh.restore_from_events(copy(&e.sequencer.log)).unwrap();
    assert_eq!(levels(&fresh), levels(&e));
    assert_eq!(levels(&e), (vec![(99, 4, 1)], vec![(100, 5, 1), (101, 5, 1)]));
    assert_eq!(fresh.state.checksum(), e.state.checksum());
    assert_eq!(fresh.next_seq_id(), e.next_seq_id());
    let entry = |se: &SequencedEvent| (se.seq_id, se.timestamp_ms, format!("{:?}", se.event));
    assert_eq!(
        fresh.sequencer.log.iter().map(entry).collect::<Vec<_>>(),
        e.sequencer.log.iter().map(entry).collect::<Vec<_>>()
    );
    for se in &e.sequencer.log {
        if let Event::OrderAccepted { order } = &se.event {
            let live = e.get_order(&order.order_id).unwrap();
            let back = fresh.get_order(&order.order_id).unwrap();
            assert_eq!(format!("{back:?}"), format!("{live:?}"));
        }
    }
    // A submission that was accepted before the restart is still a duplicate.
    let again = fresh.process_order(signed(&ALICE, Side::Sell, 100, 10, 1)).unwrap();
    assert!(again.is_duplicate);
    assert_eq!(again.seq_id, 1);
    let stopped = fresh.process_order(signed(&CAROL, Side::Buy, 100, 3, 2)).unwrap();
    assert!(stopped.is_duplicate);
    assert_eq!(stopped.final_status, OrderStatus::CancelledStp);
    // And a nonce that was used up stays used up.
    let mut reuse = signed(&ALICE, Side::Sell, 100, 10, 2);
    reuse = make_order(&ALICE, "M".into(), reuse.side, 100, 10, "other".into(), 2, 5, 5);
    assert!(matches!(fresh.process_order(reuse), Err(EngineError::Nonce(_))));
    // Matching goes on where it stopped.
    let next = fresh.process_order(signed(&BOB, Side::Buy, 101, 6, 9)).unwrap();
    assert_eq!(next.fills.iter().map(|f| (f.price_ticks, f.size_lots)).collect::<Vec<_>>(), vec![(100, 5), (101, 1)]);
}

#[test]
fn restore_keeps_a_book_for_every_market() {
    let mut e = engine();
    let r = e.process_order(signed(&ALICE, Side::Buy, 10, 1, 1)).unwrap();
    e.process_cancel(&r.order_id, &trader_id(&ALICE)).unwrap();

    let mut fresh = engine();
    fresh.add_market(market("N", 1, 1));
    fresh.restore_from_events(copy(&e.sequencer.log)).unwrap();
    assert_eq!(fresh.best_prices("M"), Some((None, None)));
    assert_eq!(fresh.best_prices("N"), Some((None, None)));
    assert_eq!(fresh.best_prices("O"), None);
    let placed = fresh.process_order(signed(&ALICE, Side::Buy, 10, 1, 2)).unwrap();
    assert_eq!(placed.seq_id, 3);
    // The cancelled order is in no book, but it is not forgotten.
    let twice = fresh.process_cancel(&r.order_id, &trader_id(&ALICE)).unwrap();
    assert_eq!((twice.seq_id, twice.was_already_closed), (None, true));
    assert_eq!(fresh.get_order(&r.order_id).unwrap().last_update_sequence, 2);
}

#[test]
fn restore_refuses_a_log_with_a_gap() {
    let e = busy_engine();
    let mut log = copy(&e.sequencer.log);
    log.remove(2);
    let mut fresh = engine();
    assert!(matches!(
        fresh.restore_from_events(log),
        Err(ReplayError::SeqIdGap { expected: 3, got: 4 })
    ));
    assert_eq!(fresh.sequencer.len(), 0);
    assert_eq!(fresh.best_prices("M"), Some((None, None)));
    fresh.restore_from_events(vec![]).unwrap();
    assert_eq!(fresh.next_seq_id(), 1);
}

#[test]
fn replay_refuses_unknown_orders_and_overflow() {
    let e = busy_engine();
    let cancel = |seq_id| SequencedEvent {
        seq_id,
        timestamp_ms: 0,
        event: Event::OrderCancelled {
            order_id: OrderId("nobody".into()),
            order_hash: OrderHash([0; 32]),
            reason: CancelReason::Expired,
        },
    };
    assert!(matches!(replay(&[cancel(1)]), Err(ReplayError::UnknownOrder(id)) if id.0 == "nobody"));

    let mut log = copy(&e.sequencer.log);
    for se in log.iter_mut() {
        if let Event::Fill(fill) = &mut se.event {
            fill.size_lots = u64::MAX;
        }
    }
    assert!(try_replay(&log).is_none());
    let mut fresh = engine();
    assert!(fresh.try_restore_from_events(log).is_none());
    assert_eq!(fresh.sequencer.len(), 0);

    let mut last = copy(&e.sequencer.log[..1]);
    last[0].seq_id = u64::MAX;
    assert!(try_replay(&last).is_some());
    assert!(fresh.try_restore_from_events(last).is_none());
}

#[test]
fn sane_logs() {
    let e = busy_engine();
    assert!(log_accepts_sane(&e.sequencer.log));
    let mut log = copy(&e.sequencer.log);
    if let Event::OrderAccepted { order } = &mut log[0].event {
        order.filled_size_lots = order.orig_size_lots + 1;
    }
    assert!(!log_accepts_sane(&log));
}

#[test]
fn snapshot_of_a_busy_engine_loads() {
    let e = busy_engine();
    let markets: Vec<MarketConfig> = e.list_markets().into_iter().cloned().collect();
    let snap = create_snapshot(&e.sequencer.log, &markets, e.state.checksum());
    let (result, markets, seq) = load_snapshot(snap).unwrap();
    assert_eq!(seq, e.next_seq_id() - 1);
    assert_eq!(markets.len(), 1);
    assert_eq!(result.state.checksum(), e.state.checksum());
    assert_eq!(result.last_seq_id, seq);
    assert_eq!(result.books.get("M").unwrap().best_bid(), Some(99));
}

#[test]
fn accounts_match_the_orders() {
    let e = busy_engine();
    for se in &e.sequencer.log {
        if let Event::OrderAccepted { order } = &se.event {
            let live = e.get_order(&order.order_id).unwrap();
            assert_eq!(e.state.filled_amount(&live.order_hash.0), live.filled_size_lots);
            assert!(live.filled_size_lots <= live.orig_size_lots);
        }
    }
}

#[test]
fn numbers_have_no_gaps_and_books_do_not_cross() {
    let e = busy_engine();
    for (i, se) in e.sequencer.log.iter().enumerate() {
        assert_eq!(se.seq_id, i as u64 + 1);
    }
    let (bid, ask) = e.best_prices("M").unwrap();
    assert!(bid.unwrap() < ask.unwrap());
}

#[test]
fn price_time_priority_and_maker_price() {
    let mut e = engine();
    let first = e.process_order(signed(&ALICE, Side::Buy, 50, 2, 1)).unwrap();
    let second = e.process_order(signed(&CAROL, Side::Buy, 50, 2, 1)).unwrap();
    let best = e.process_order(signed(&ALICE, Side::Buy, 52, 1, 2)).unwrap();
    let sell = e.process_order(signed(&BOB, Side::Sell, 40, 4, 1)).unwrap();
    let seen: Vec<(OrderId, u64, u64)> =
        sell.fills.iter().map(|f| (f.maker_order_id.clone(), f.price_ticks, f.size_lots)).collect();
    assert_eq!(
        seen,
        vec![(best.order_id, 52, 1), (first.order_id, 50, 2), (second.order_id.clone(), 50, 1)]
    );
    assert_eq!(sell.final_status, OrderStatus::Filled);
    assert_eq!(e.get_order(&second.order_id).unwrap().status, OrderStatus::PartiallyFilled);
    assert_eq!(levels(&e), (vec![(50, 1, 1)], vec![]));
}

#[test]
fn refusals_are_recorded_and_change_nothing_else() {
    let mut e = engine();
    e.add_market(market("L", 10, 7));
    let on = |market: &str, price, size| {
        make_order(&ALICE, market.into(), Side::Buy, price, size, "c".into(), 1, 5, 1)
    };
    assert!(matches!(
        e.process_order(on("L", 15, 7)),
        Err(EngineError::Order(OrderError::InvalidTick { price: 15, tick_size: 10 }))
    ));
    assert!(matches!(
        e.process_order(on("L", 20, 8)),
        Err(EngineError::Order(OrderError::InvalidLot { size: 8, lot_size: 7 }))
    ));
    assert!(matches!(e.process_order(on("X", 20, 7)), Err(EngineError::Order(OrderError::MarketNotFound(m))) if m == "X"));
    assert!(matches!(e.process_order(on("L", 0, 7)), Err(EngineError::Order(OrderError::ZeroPrice))));
    assert!(matches!(e.process_order(on("L", 20, 0)), Err(EngineError::Order(OrderError::ZeroSize))));
    assert!(matches!(e.process_order(on("", 20, 7)), Err(EngineError::Order(OrderError::EmptyField("market_id")))));
    let mut old = on("L", 20, 7);
    old.schema_version = 2;
    assert!(matches!(e.process_order(old), Err(EngineError::Order(OrderError::UnsupportedSchemaVersion(2)))));
    let mut late = on("L", 20, 7);
    late.expiry_ts_ms = 1_000_000;
    assert!(matches!(e.process_order(late), Err(EngineError::Order(OrderError::Expired { .. }))));
    let reasons: Vec<&str> = e
        .sequencer
        .log
        .iter()
        .map(|se| match &se.event {
            Event::OrderRejected { client_order_id, trader_id: who, reason } => {
                assert_eq!(client_order_id, "c");
                assert_eq!(who, &trader_id(&ALICE));
                reason.as_str()
            },
            _ => panic!("a rejection was expected"),
        })
        .collect();
    assert_eq!(reasons.len(), 8);
    assert_eq!(reasons[2], "order validation failed: market 'X' not found");
    assert!(reasons.iter().all(|r| r.starts_with("order validation failed: ")));
    assert!(e.state.nonces.is_empty());
    assert_eq!(e.next_seq_id(), 9);
    assert_eq!(e.best_prices("L"), Some((None, None)));
    // A nonce that was used before is recorded too, a duplicate is not.
    e.process_order(on("L", 20, 7)).unwrap();
    assert!(e.process_order(on("L", 20, 7)).unwrap().is_duplicate);
    assert_eq!(e.sequencer.len(), 9);
    let reused = make_order(&ALICE, "L".into(), Side::Buy, 20, 7, "d".into(), 1, 5, 1);
    assert!(matches!(e.process_order(reused), Err(EngineError::Nonce(_))));
    match &e.sequencer.log[9].event {
        Event::OrderRejected { client_order_id, reason, .. } => {
            assert_eq!(client_order_id, "d");
            assert!(reason.starts_with("nonce rejected: "));
        },
        _ => panic!("a rejection was expected"),
    }
    let mut fresh = engine();
    fresh.add_market(market("L", 10, 7));
    fresh.restore_from_events(copy(&e.sequencer.log)).unwrap();
    assert_eq!(fresh.next_seq_id(), 11);
    assert_eq!(fresh.best_prices("L"), Some((Some(20), None)));
}

#[test]
fn fills_are_the_last_changes_of_their_orders() {
    let mut e = engine();
    let a = e.process_order(signed(&ALICE, Side::Sell, 10, 2, 1)).unwrap();
    let b = e.process_order(signed(&CAROL, Side::Sell, 11, 5, 1)).unwrap();
    let t = e.process_order(signed(&BOB, Side::Buy, 11, 4, 1)).unwrap();
    // The acceptance is event 3, the fills are events 4 and 5.
    assert_eq!(t.fills.iter().map(|f| f.sequence_id).collect::<Vec<_>>(), vec![3, 3]);
    let last = |id: &OrderId| e.get_order(id).unwrap().last_update_sequence;
    assert_eq!((last(&a.order_id), last(&b.order_id), last(&t.order_id)), (4, 5, 5));
    assert_eq!(e.get_order(&a.order_id).unwrap().status, OrderStatus::Filled);
    assert_eq!(e.get_order(&b.order_id).unwrap().status, OrderStatus::PartiallyFilled);
}

#[test]
fn order_ids_are_random_uuids() {
    let mut e = engine();
    let first = e.process_order(signed(&ALICE, Side::Buy, 10, 1, 1)).unwrap().order_id.0;
    let second = e.process_order(signed(&ALICE, Side::Buy, 10, 1, 2)).unwrap().order_id.0;
    assert_ne!(first, second);
    for id in [first, second] {
        assert_eq!(id.len(), 36);
        for (i, c) in id.chars().enumerate() {
            match i {
                8 | 13 | 18 | 23 => assert_eq!(c, '-'),
                14 => assert_eq!(c, '4'),
                19 => assert!("89ab".contains(c)),
                _ => assert!("0123456789abcdef".contains(c)),
            }
        }
    }
}

#[test]
fn trader_id_has_to_be_the_public_key() {
    let mut e = engine();
    let signed = signed(&ALICE, Side::Buy, 10, 1, 1);
    let mut other = signed.clone();
    other.trader_id = trader_id(&BOB);
    let hash = other.canonical_hash();
    // With a verdict of its own the check of the trader id is reached.
    let r = e.process_order_at(other, 1, Ok(()), hash, OrderId("x".into()));
    assert!(matches!(r, Err(EngineError::Order(OrderError::TraderIdMismatch))));
    assert_eq!(e.sequencer.len(), 1);
    assert!(matches!(e.sequencer.log[0].event, Event::OrderRejected { .. }));
}

#[test]
fn order_at_a_given_time_and_id() {
    let mut e = engine();
    let order = signed(&ALICE, Side::Buy, 10, 3, 1);
    let hash = OrderHash([9; 32]);
    let r = e.process_order_at(order.clone(), 77, Ok(()), hash, OrderId("first".into())).unwrap();
    assert_eq!(r.order_id.0, "first");
    assert_eq!(r.order_hash, hash);
    assert_eq!(r.seq_id, 1);
    let stored = e.get_order(&OrderId("first".into())).unwrap();
    assert_eq!(stored.accepted_at_ms, 77);
    assert_eq!(stored.created_sequence, 1);
    let again = e.process_order_at(order, 78, Ok(()), OrderHash([8; 32]), OrderId("second".into())).unwrap();
    assert!(again.is_duplicate);
    assert_eq!(again.order_id.0, "first");
    assert_eq!(again.final_status, OrderStatus::Open);
    let refused = e.process_order_at(
        signed(&ALICE, Side::Buy, 10, 3, 2),
        79,
        Err(OrderError::InvalidSignature),
        hash,
        OrderId("third".into()),
    );
    assert!(matches!(refused, Err(EngineError::Order(OrderError::InvalidSignature))));
    assert_eq!(e.sequencer.len(), 2);
}

#[test]
fn duplicate_of_an_order_filled_on_intake_is_told_as_filled() {
    let mut e = engine();
    e.process_order(signed(&ALICE, Side::Sell, 10, 5, 1)).unwrap();
    let taker = signed(&BOB, Side::Buy, 10, 5, 1);
    let first = e.process_order(taker.clone()).unwrap();
    assert_eq!(first.final_status, OrderStatus::Filled);
    assert_eq!(first.fills.len(), 1);
    let again = e.process_order(taker).unwrap();
    assert!(again.is_duplicate);
    assert!(again.fills.is_empty());
    assert_eq!(again.final_status, OrderStatus::Filled);
    let kept = e.get_order(&first.order_id).unwrap();
    assert_eq!((kept.status, kept.filled_size_lots), (OrderStatus::Filled, 5));
    let cancel = e.process_cancel(&first.order_id, &trader_id(&BOB)).unwrap();
    assert_eq!(cancel.order_id, first.order_id);
    assert_eq!((cancel.seq_id, cancel.was_already_closed), (None, true));
    assert!(matches!(e.process_cancel(&first.order_id, &trader_id(&ALICE)), Err(CancelError::Unauthorized(_))));
    assert!(matches!(e.process_cancel(&OrderId("nope".into()), &trader_id(&BOB)), Err(CancelError::NotFound(id)) if id == "nope"));
    assert_eq!(e.sequencer.len(), 3);
}

#[test]
fn duplicate_of_an_order_stopped_on_intake_is_told_as_stopped() {
    let mut e = engine();
    e.process_order(signed(&BOB, Side::Sell, 9, 2, 1)).unwrap();
    e.process_order(signed(&ALICE, Side::Sell, 10, 5, 1)).unwrap();
    let taker = signed(&ALICE, Side::Buy, 11, 5, 2);
    let first = e.process_order(taker.clone()).unwrap();
    assert_eq!(first.final_status, OrderStatus::CancelledStp);
    assert_eq!(first.fills.len(), 1);
    assert_eq!(e.sequencer.len(), 5);
    let again = e.process_order(taker.clone()).unwrap();
    assert!(again.is_duplicate);
    assert_eq!(again.final_status, OrderStatus::CancelledStp);
    assert_eq!((again.seq_id, &again.order_id, again.order_hash), (3, &first.order_id, first.order_hash));
    assert!(again.fills.is_empty());
    // Its cancel is event 5, the last one that changed it.
    let kept = e.get_order(&first.order_id).unwrap();
    assert_eq!((kept.status, kept.filled_size_lots, kept.last_update_sequence), (OrderStatus::CancelledStp, 2, 5));
    let cancel = e.process_cancel(&first.order_id, &trader_id(&ALICE)).unwrap();
    assert_eq!((cancel.seq_id, cancel.was_already_closed), (None, true));
    assert_eq!(e.sequencer.len(), 5);
    assert_eq!(levels(&e), (vec![], vec![(10, 5, 1)]));
    let mut fresh = engine();
    fresh.restore_from_events(copy(&e.sequencer.log)).unwrap();
    assert_eq!(fresh.process_order(taker).unwrap().final_status, OrderStatus::CancelledStp);
    let told = api::get_order(&fresh, first.order_id.0.clone()).unwrap();
    assert_eq!((told.status, told.remaining_size_lots, told.last_update_sequence), (OrderStatus::CancelledStp, 3, 5));
    let by_name = api::cancel_by_client_id(&mut fresh, &trader_id(&ALICE), "c2").unwrap();
    assert_eq!((by_name.order_id, by_name.was_already_closed), (first.order_id.0, true));
}

#[test]
fn a_cancel_is_the_last_change_of_its_order() {
    let mut e = engine();
    let kept = e.process_order(signed(&BOB, Side::Buy, 9, 2, 1)).unwrap();
    let gone = e.process_order(signed(&BOB, Side::Buy, 8, 2, 2)).unwrap();
    let cancel = e.process_cancel(&gone.order_id, &trader_id(&BOB)).unwrap();
    assert_eq!((cancel.seq_id, cancel.was_already_closed), (Some(3), false));
    let order = e.get_order(&gone.order_id).unwrap();
    assert_eq!((order.created_sequence, order.last_update_sequence), (2, 3));
    assert_eq!(e.get_order(&kept.order_id).unwrap().last_update_sequence, 1);
    e.process_order(signed(&BOB, Side::Buy, 7, 2, 3)).unwrap();
    assert_eq!(cancel_all_orders(&mut e, "M").unwrap(), 2);
    assert_eq!(e.get_order(&kept.order_id).unwrap().last_update_sequence, 5);
}

#[test]
fn nothing_is_left_of_an_order_filled_beyond_its_size() {
    let e = busy_engine();
    let mut log = copy(&e.sequencer.log);
    let taker = match &mut log[4].event {
        Event::Fill(fill) => {
            fill.size_lots = 50;
            fill.taker_order_id.0.clone()
        },
        _ => panic!("a fill was expected"),
    };
    assert!(log_accepts_sane(&log));
    let mut fresh = engine();
    fresh.restore_from_events(log).unwrap();
    let told = api::get_order(&fresh, taker).unwrap();
    assert_eq!((told.orig_size_lots, told.filled_size_lots, told.remaining_size_lots), (12, 52, 0));
    assert_eq!(told.status, OrderStatus::Filled);
}

#[test]
fn the_latest_configuration_of_a_market_is_listed() {
    let mut e = engine();
    for (id, tick) in [("b", 1), ("Z", 2), ("a", 3), ("b", 4)] {
        e.add_market(market(id, tick, 1));
    }
    let seen: Vec<(String, u64)> = e.list_markets().iter().map(|m| (m.id.0.clone(), m.tick_size)).collect();
    assert_eq!(seen, vec![("M".into(), 1), ("Z".into(), 2), ("a".into(), 3), ("b".into(), 4)]);
    assert_eq!(e.sequencer().len(), 0);
    assert_eq!(e.state().checksum(), e.state.checksum());
}

#[test]
fn orders_that_do_not_fit_are_left_alone() {
    let mut e = engine();
    let maker = e.process_order(signed(&ALICE, Side::Sell, 10, u64::MAX, 1)).unwrap();
    e.process_order(signed(&BOB, Side::Buy, 10, 10, 1)).unwrap();
    assert_eq!(e.state.filled_amount(&maker.order_hash.0), 10);
    // No more than what is left of the maker is filled, so this fits.
    let huge = signed(&CAROL, Side::Buy, 10, u64::MAX, 1);
    assert!(e.has_room_for(&huge));
    let r = e.try_process_order(huge.clone()).unwrap().unwrap();
    assert_eq!(r.fills[0].size_lots, u64::MAX - 10);
    assert_eq!(e.state.filled_amount(&maker.order_hash.0), u64::MAX);
    // A duplicate changes nothing and always fits.
    assert!(e.try_process_order(huge).unwrap().unwrap().is_duplicate);

    // Something booked beforehand for an order leaves no room for its fill.
    let next = signed(&BOB, Side::Sell, 10, 5, 2);
    let hash = next.canonical_hash();
    e.state.apply_fill(hash.0, [7; 32], u64::MAX - 4);
    let before = e.sequencer.len();
    assert!(!e.has_room_for(&next));
    assert!(e.try_process_order(next).is_none());
    assert_eq!(e.sequencer.len(), before);
    assert_eq!(e.state.last_nonce(&trader_id(&BOB)), 1);
    // One that is refused anyway always fits.
    let mut forged = signed(&BOB, Side::Sell, 10, 5, 2);
    forged.signature = [0; 64];
    assert!(matches!(
        e.try_process_order(forged),
        Some(Err(EngineError::Order(OrderError::InvalidSignature)))
    ));

    let small = e.try_process_order(signed(&BOB, Side::Buy, 5, 1, 3)).unwrap().unwrap();
    assert_eq!(small.final_status, OrderStatus::Open);
    let unknown = make_order(&BOB, "X".into(), Side::Buy, 5, 1, "c".into(), 4, 5, 1);
    assert!(e.try_process_order(unknown).unwrap().is_err());
}

#[test]
fn depth_that_does_not_fit() {
    let mut e = engine();
    e.process_order(signed(&ALICE, Side::Sell, 10, u64::MAX, 1)).unwrap();
    assert!(e.try_l2_snapshot("M", 5).unwrap().is_some());
    e.process_order(signed(&ALICE, Side::Sell, 10, 1, 2)).unwrap();
    assert!(e.try_l2_snapshot("M", 5).is_none());
    assert!(e.try_l2_snapshot("M", 0).unwrap().is_some());
    assert!(e.try_l2_snapshot("X", 5).unwrap().is_none());
    assert!(api::get_book(&e, "M", 5).is_none());
}

#[test]
fn cancel_all_takes_only_what_rests() {
    let mut e = busy_engine();
    let before = e.sequencer.len();
    let open = e.open_orders("M").unwrap();
    assert_eq!(open.len(), 3);
    assert_eq!(cancel_all_orders(&mut e, "M").unwrap(), 3);
    assert_eq!(e.sequencer.len(), before + 3);
    let cancelled: Vec<OrderId> = e.sequencer.log[before..]
        .iter()
        .map(|se| match &se.event {
            Event::OrderCancelled { order_id, reason: CancelReason::AdminForce, .. } => order_id.clone(),
            _ => panic!("a cancel by an operator was expected"),
        })
        .collect();
    assert_eq!(cancelled, open);
    for id in &open {
        let order = e.get_order(id).unwrap();
        assert_eq!(order.status, OrderStatus::Cancelled);
        assert!(e.state.is_cancelled(&order.order_hash.0));
    }
    assert_eq!(levels(&e), (vec![], vec![]));
    assert_eq!(cancel_all_orders(&mut e, "M").unwrap(), 0);
    let mut fresh = engine();
    fresh.restore_from_events(copy(&e.sequencer.log)).unwrap();
    assert_eq!(fresh.state.checksum(), e.state.checksum());
    assert_eq!(levels(&fresh), (vec![], vec![]));
}

#[test]
fn settled_markets_stay_settled() {
    let mut e = engine();
    let mut settled = market("S", 1, 1);
    settled.status = MarketStatus::Settled;
    e.add_market(settled);
    assert!(matches!(pause_market(&mut e, "S", "ops"), Err(AdminError::Settled(_))));
    assert!(matches!(resume_market(&mut e, "S", "ops"), Err(AdminError::Settled(_))));
    assert_eq!(e.sequencer.len(), 0);
    assert_eq!(e.market("S").unwrap().status, MarketStatus::Settled);
    let ids: Vec<&str> = e.list_markets().iter().map(|m| m.id.0.as_str()).collect();
    assert_eq!(ids, vec!["M", "S"]);
}

#[test]
fn fills_are_listed_from_a_number_and_up_to_a_limit() {
    let mut e = engine();
    for n in 1..=3 {
        e.process_order(signed(&ALICE, Side::Sell, 10, 1, n)).unwrap();
        e.process_order(signed(&BOB, Side::Buy, 10, 1, n)).unwrap();
    }
    assert_eq!(e.get_fills("M", 0, 0).len(), 3);
    assert_eq!(e.get_fills("M", 0, 2).len(), 2);
    // The fills are the events 3, 6 and 9.
    assert_eq!(e.get_fills("M", 6, 0).len(), 2);
    assert_eq!(e.get_fills("M", 7, 0).len(), 1);
    assert_eq!(e.get_fills("X", 0, 0).len(), 0);
    let trades = api::get_trades(&e, "M", 1, 4).unwrap();
    assert_eq!(trades.len(), 1);
    assert_eq!((trades[0].price_ticks, trades[0].size_lots, trades[0].executed_at_ms), (10, 1, 1_000_000));
}

#[test]
fn requests_and_their_answers() {
    let mut e = engine();
    let mut risk = RiskChecker::with_clock(RiskConfig::default(), Box::new(FixedClock(1)));
    let order = signed(&ALICE, Side::Sell, 10, 5, 1);
    let (status, body) = api::post_order(&mut risk, &mut e, order.clone()).unwrap().unwrap();
    assert_eq!(status, 201);
    assert_eq!((body.seq_id, body.fill_count, body.filled_qty, body.is_duplicate), (1, 0, 0, false));
    assert_eq!(body.order_hash, order.canonical_hash().to_hex());
    let (status, again) = api::post_order(&mut risk, &mut e, order).unwrap().unwrap();
    assert_eq!(status, 200);
    assert!(again.is_duplicate);
    assert_eq!(again.order_id, body.order_id);

    let (status, taken) = api::post_order(&mut risk, &mut e, signed(&BOB, Side::Buy, 11, 3, 1)).unwrap().unwrap();
    assert_eq!((status, taken.fill_count, taken.filled_qty), (201, 1, 3));
    assert_eq!(taken.status, OrderStatus::Filled);

    let state = api::get_order(&e, body.order_id.clone()).unwrap();
    assert_eq!((state.filled_size_lots, state.remaining_size_lots), (3, 2));
    assert_eq!(state.status, OrderStatus::PartiallyFilled);
    let missing = api::get_order(&e, "nope".into()).unwrap_err();
    assert_eq!((missing.0, missing.1.code), (404, "ORDER_NOT_FOUND"));

    let book = api::get_book(&e, "M", 1_000).unwrap().unwrap();
    assert_eq!(book.asks.len(), 1);
    assert_eq!((book.asks[0].price_ticks, book.asks[0].total_qty_lots, book.asks[0].order_count), (10, 2, 1));
    assert!(book.bids.is_empty());
    let none = api::get_book(&e, "X", 1).unwrap().unwrap_err();
    assert_eq!((none.0, none.1.code, none.1.message.as_str()), (404, "MARKET_NOT_FOUND", "market X not found"));
    assert_eq!(api::get_trades(&e, "X", 1, 0).unwrap_err().0, 404);

    let foreign = api::delete_order(&mut e, body.order_id.clone(), Some(trader_id(&BOB))).unwrap_err();
    assert_eq!((foreign.0, foreign.1.code), (403, "UNAUTHORIZED_CANCEL"));
    let unnamed = api::delete_order(&mut e, body.order_id.clone(), None).unwrap_err();
    assert_eq!((unnamed.0, unnamed.1.code), (400, "MISSING_TRADER_ID"));
    assert_eq!(unnamed.1.message, "X-Trader-Id header is required");
    let gone = api::cancel_by_client_id(&mut e, &trader_id(&ALICE), "c1").unwrap();
    assert_eq!(gone.order_id, body.order_id);
    assert_eq!((gone.seq_id, gone.was_already_closed), (Some(4), false));
    let twice = api::delete_order(&mut e, body.order_id, Some(trader_id(&ALICE))).unwrap();
    assert_eq!((twice.seq_id, twice.was_already_closed), (None, true));
    let unknown = api::cancel_by_client_id(&mut e, "t", "c1").unwrap_err();
    assert_eq!(unknown.1.message, "no order found for this client_order_id");

    let markets = api::list_markets(&e);
    assert_eq!(markets.len(), 1);
    assert_eq!(markets[0].market_id, "M");
    assert_eq!((api::default_depth(), api::default_limit()), (20, 100));
}

#[test]
fn an_order_that_fails_a_check_does_not_reach_the_engine() {
    let mut e = engine();
    let mut config = RiskConfig::default();
    config.max_orders_per_window = 1;
    let mut risk = RiskChecker::with_clock(config, Box::new(FixedClock(1)));
    assert!(api::post_order(&mut risk, &mut e, signed(&ALICE, Side::Buy, 10, 5, 1)).unwrap().is_ok());
    let said = api::post_order(&mut risk, &mut e, signed(&ALICE, Side::Buy, 10, 5, 2)).unwrap().unwrap_err();
    assert_eq!((said.0, said.1.code), (429, "RATE_LIMIT_EXCEEDED"));
    assert_eq!(e.sequencer.len(), 1);
    let bad = api::post_order(&mut risk, &mut e, {
        let mut o = signed(&BOB, Side::Buy, 10, 5, 2);
        o.signature = [0; 64];
        o
    });
    assert_eq!(bad.unwrap().unwrap_err().1.code, "INVALID_SIGNATURE");
    assert_eq!(e.sequencer.len(), 2);
    assert!(matches!(&e.sequencer.log[1].event, Event::OrderRejected { trader_id: who, .. } if *who == trader_id(&BOB)));
}

#[test]
fn administrative_requests() {
    let key = Some("k".to_string());
    assert!(api::check_admin_key(&key, &Some("k".to_string())).is_ok());
    for (expected, given) in [
        (key.clone(), None),
        (key.clone(), Some("x".to_string())),
        (None, Some("k".to_string())),
        (None, None),
    ] {
        let said = api::check_admin_key(&expected, &given).unwrap_err();
        assert_eq!((said.0, said.1.code), (401, "INVALID_ADMIN_KEY"));
    }
    let mut e = engine();
    e.process_order(signed(&ALICE, Side::Buy, 10, 5, 1)).unwrap();
    for given in [None, Some("x".to_string())] {
        let said = [
            api::admin_pause_market(&mut e, &key, &given, "M", "ops").unwrap_err(),
            api::admin_resume_market(&mut e, &key, &given, "M", "ops").unwrap_err(),
            api::admin_cancel_all(&mut e, &key, &given, "M").unwrap_err(),
            api::admin_pause_market(&mut e, &None, &given, "M", "ops").unwrap_err(),
        ];
        for said in said {
            assert_eq!((said.0, said.1.code), (401, "INVALID_ADMIN_KEY"));
        }
        assert_eq!(e.sequencer.len(), 1);
        assert_eq!(e.market("M").unwrap().status, MarketStatus::Active);
        assert_eq!(levels(&e), (vec![(10, 5, 1)], vec![]));
    }
    assert_eq!(api::admin_pause_market(&mut e, &key, &key, "M", "ops").unwrap(), 2);
    assert_eq!(api::admin_pause_market(&mut e, &key, &key, "M", "ops").unwrap_err().1.code, "ALREADY_IN_STATE");
    assert!(matches!(
        e.process_order(signed(&ALICE, Side::Buy, 10, 5, 2)),
        Err(EngineError::Order(OrderError::MarketNotActive(_)))
    ));
    assert_eq!(api::admin_cancel_all(&mut e, &key, &key, "M").unwrap(), 1);
    assert_eq!(api::admin_resume_market(&mut e, &key, &key, "M", "ops").unwrap(), 5);
    assert_eq!(api::admin_resume_market(&mut e, &key, &key, "X", "ops").unwrap_err().0, 404);
    assert_eq!(api::admin_cancel_all(&mut e, &key, &key, "X").unwrap_err().1.message, "market 'X' not found");
    assert!(e.process_order(signed(&ALICE, Side::Buy, 10, 5, 3)).is_ok());
}

#[test]
fn a_cancelled_order_cannot_come_back() {
    let mut e = engine();
    let order = signed(&ALICE, Side::Buy, 10, 5, 1);
    let placed = e.process_order(order.clone()).unwrap();
    e.process_cancel(&placed.order_id, &trader_id(&ALICE)).unwrap();
    let before = e.sequencer.len();
    let again = e.process_order(order.clone()).unwrap();
    assert!(again.is_duplicate);
    assert_eq!(again.final_status, OrderStatus::Cancelled);
    assert_eq!(e.sequencer.len(), before);
    // Under another client order id it is another order, and its nonce is used up.
    let renamed = make_order(&ALICE, "M".into(), Side::Buy, 10, 5, "new".into(), 1, 5, 1);
    assert!(matches!(
        e.process_order(renamed),
        Err(EngineError::Nonce(n)) if n.last_nonce == 1 && n.submitted == 1
    ));
    assert_eq!(e.sequencer.len(), before + 1);
    assert!(matches!(e.sequencer.log[before].event, Event::OrderRejected { .. }));
    assert_eq!(e.best_prices("M"), Some((None, None)));
}

#[test]
fn what_is_appended_is_what_is_announced() {
    let mut e = engine();
    e.process_order(signed(&ALICE, Side::Sell, 10, 5, 1)).unwrap();
    let seq_before = e.next_seq_id() - 1;
    let len_before = e.sequencer.len();
    e.process_order(signed(&BOB, Side::Buy, 10, 5, 1)).unwrap();
    let announced: Vec<u64> =
        clob_api::api::events_since(&e.sequencer.log, seq_before).iter().map(|se| se.seq_id).collect();
    let appended: Vec<u64> = e.sequencer.log[len_before..].iter().map(|se| se.seq_id).collect();
    assert_eq!(announced, appended);
    assert_eq!(announced, vec![2, 3]);
}

#[test]
fn a_restored_engine_answers_as_the_first_one() {
    let mut first = busy_engine();
    let mut second = engine();
    second.restore_from_events(copy(&first.sequencer.log)).unwrap();
    for (who, side, price, size, nonce) in [
        (&CAROL, Side::Sell, 95, 2, 10),
        (&ALICE, Side::Buy, 103, 20, 10),
        (&BOB, Side::Sell, 90, 50, 10),
    ] {
        let order = signed(who, side, price, size, nonce);
        let a = first.process_order(order.clone()).unwrap();
        let b = second.process_order(order).unwrap();
        assert_eq!(a.seq_id, b.seq_id);
        assert_eq!(a.final_status, b.final_status);
        let fills = |r: &clob_api::engine::OrderResult| {
            r.fills.iter().map(|f| (f.maker_order_hash, f.price_ticks, f.size_lots)).collect::<Vec<_>>()
        };
        assert_eq!(fills(&a), fills(&b));
        assert_eq!(levels(&first), levels(&second));
        assert_eq!(first.state.checksum(), second.state.checksum());
    }
}

#[test]
fn copy_of_a_book_is_the_book() {
    let e = busy_engine();
    let log = copy(&e.sequencer.log);
    let result = replay(&log).unwrap();
    let book = result.books.get("M").unwrap();
    let twin = book.copy();
    assert_eq!(twin.order_count(), book.order_count());
    assert_eq!(twin.best_bid(), book.best_bid());
    assert_eq!(twin.ask_prices_asc(), book.ask_prices_asc());
    assert_eq!(twin.orders_at_price(100, Side::Sell), book.orders_at_price(100, Side::Sell));
    assert_eq!(twin.open_orders(), book.open_orders());
    assert_eq!(book.queue_len(100, Side::Sell), 1);
    assert_eq!(book.queue_len(1, Side::Sell), 0);
}
