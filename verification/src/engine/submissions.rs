//! What a submission and a cancel are answered, and what they leave behind.
use crate::crypto::hex_text;
use crate::db::{amount, filled_after, law_booked_by_fills};
use crate::domain::market::{law_aligned_is_multiple, steps, MarketConfig, MarketStatus};
use crate::domain::order::{law_fields_pass, Fill, Order, OrderError, OrderHash, OrderId, OrderStatus, Side, SignedOrder};
use crate::engine::laws::{law_taker_closed_or_left, lemma_matched, lemma_numbered, lemma_renumbered, start_of, volume};
use crate::engine::model::{appended, cancelled, fill_events, intake_events, new_order, renumbered, EngineModel, Entry};
use crate::engine::orderbook::{Age, BookModel};
use crate::engine::priority::{law_fill_tells, law_maker_comes_out, law_queues_hold_resting_orders, law_taker_status, resting};
use crate::engine::recovery::tidy_engine;
use crate::engine::tidy::{law_intake_keeps_tidy, lemma_numbered_tidy, lemma_tidy_closed, tidy};
use crate::engine::{answers, cancel_answers, CancelError, CancelResult, EngineError, OrderResult};
use crate::events::{CancelReason, Event};
use crate::ordmap::MapKey;
use crate::replay::youngest;
use crate::sequencer::IdempotencyRecord;
use vstd::prelude::*;

verus! {

/// A submission passes the checks before idempotency and nonce exactly when its fields
/// are in order and it has not expired, its signature is good, its trader id is the
/// notation of its public key, its market is registered and active, and its price and
/// size are whole numbers of ticks and lots.
pub proof fn law_submission_passes(e: EngineModel, signed: SignedOrder, now: u64, verdict: Result<(), OrderError>)
    ensures
        e.refusal(signed, now, verdict) is None <==> {
            let market = e.markets[signed.market_id.0@];
            &&& signed.schema_version == 1
            &&& signed.market_id.0@.len() > 0
            &&& signed.trader_id@.len() > 0
            &&& signed.client_order_id@.len() > 0
            &&& signed.price_ticks > 0
            &&& signed.size_lots > 0
            &&& signed.expiry_ts_ms == 0 || now < signed.expiry_ts_ms
            &&& verdict is Ok
            &&& signed.trader_id@ == hex_text(signed.trader_pubkey@)
            &&& e.markets.contains_key(signed.market_id.0@)
            &&& market.status == MarketStatus::Active
            &&& exists|k: nat| steps(signed.price_ticks, market.tick_size, k)
            &&& exists|k: nat| steps(signed.size_lots, market.lot_size, k)
        },
{
    law_fields_pass(signed, now);
    let market = e.markets[signed.market_id.0@];
    law_aligned_is_multiple(signed.price_ticks, market.tick_size);
    law_aligned_is_multiple(signed.size_lots, market.lot_size);
}

/// The first check that fails is the reason: the fields, the signature, the trader id,
/// the market, its status, the price, the size.
pub proof fn law_reason_of_refusal(e: EngineModel, signed: SignedOrder, now: u64, verdict: Result<(), OrderError>)
    ensures
        ({
            let r = e.refusal(signed, now, verdict);
            let id = signed.market_id.0@;
            let market = e.markets[id];
            let fields = signed.fields_verdict(now) is Ok;
            let checked = fields && verdict is Ok;
            let owned = checked && signed.trader_id@ == hex_text(signed.trader_pubkey@);
            let known = owned && e.markets.contains_key(id);
            let active = known && market.status == MarketStatus::Active;
            let on_tick = active && exists|k: nat| steps(signed.price_ticks, market.tick_size, k);
            &&& !fields ==> r == Some(signed.fields_verdict(now)->Err_0)
            &&& fields && verdict is Err ==> r == Some(verdict->Err_0)
            &&& checked && !owned ==> r == Some(OrderError::TraderIdMismatch)
            &&& owned && !known ==> r == Some(OrderError::MarketNotFound(signed.market_id.0))
            &&& known && !active ==> r == Some(OrderError::MarketNotActive(signed.market_id.0))
            &&& active && !on_tick ==> r == Some(
                OrderError::InvalidTick { price: signed.price_ticks, tick_size: market.tick_size },
            )
            &&& on_tick && !(exists|k: nat| steps(signed.size_lots, market.lot_size, k)) ==> r == Some(
                OrderError::InvalidLot { size: signed.size_lots, lot_size: market.lot_size },
            )
        }),
{
    let market = e.markets[signed.market_id.0@];
    law_aligned_is_multiple(signed.price_ticks, market.tick_size);
    law_aligned_is_multiple(signed.size_lots, market.lot_size);
}

/// What a submission is answered. It is turned down for a failed check, or for a nonce
/// that does not go beyond the trader's last one unless it was accepted before. One that
/// was accepted before gets the id, the hash and the number of that time again and no
/// fills; a new one gets the id and hash it was given, and the next number of the log.
pub proof fn law_answer_to_submission(
    e: EngineModel,
    signed: SignedOrder,
    now: u64,
    verdict: Result<(), OrderError>,
    hash: OrderHash,
    id: OrderId,
    after: EngineModel,
    r: Result<OrderResult, EngineError>,
)
    requires
        e.wf(),
        answers(e, signed, now, verdict, hash, id, after, r),
    ensures
        ({
            let key = (signed.trader_id@, signed.client_order_id@);
            let known = e.accepted.contains_key(key);
            let last = if e.state.nonces.contains_key(signed.trader_id@) {
                e.state.nonces[signed.trader_id@]
            } else {
                0u64
            };
            let refusal = e.refusal(signed, now, verdict);
            &&& r is Ok <==> refusal is None && (known || signed.nonce > last)
            &&& refusal matches Some(why) ==> r == Err::<OrderResult, EngineError>(EngineError::Order(why))
            &&& refusal is None && !known && signed.nonce <= last ==> (r matches Err(EngineError::Nonce(why))
                && why.last_nonce == last && why.submitted == signed.nonce)
            &&& r matches Ok(answer) ==> answer.is_duplicate == known
            &&& r matches Ok(answer) ==> known ==> {
                &&& after == e
                &&& answer.order_id == e.accepted[key].order_id
                &&& answer.order_hash == e.accepted[key].order_hash
                &&& answer.seq_id == e.accepted[key].original_seq_id
                &&& answer.fills@.len() == 0
                &&& e.find(answer.order_id.0@) matches Some(order) && order.status == answer.final_status
            }
            &&& r matches Ok(answer) ==> !known ==> {
                &&& answer.order_id == id
                &&& answer.order_hash == hash
                &&& answer.seq_id == e.next
                &&& after == e.accept(signed, now, hash, id)
            }
            &&& r is Err ==> after.books == e.books && after.state == e.state && after.accepted == e.accepted
                && after.index == e.index && after.closed == e.closed && after.markets == e.markets
        }),
{
}

/// The log of an acceptance. It holds the order as it was submitted, then one event for
/// each fill in the order of the answer, and at the end a cancel where self-trade
/// prevention stopped the order; their numbers follow each other, and what was in the
/// log before stays.
pub proof fn law_acceptance_is_logged(
    e: EngineModel,
    signed: SignedOrder,
    now: u64,
    verdict: Result<(), OrderError>,
    hash: OrderHash,
    id: OrderId,
    after: EngineModel,
    answer: OrderResult,
)
    requires
        e.wf(),
        answers(e, signed, now, verdict, hash, id, after, Ok(answer)),
        !answer.is_duplicate,
        after.next <= u64::MAX,
    ensures
        ({
            let n = e.log.len() as int;
            let fills = answer.fills@;
            let stopped = answer.final_status == OrderStatus::CancelledStp;
            &&& after.log.len() == n + 1 + fills.len() + (if stopped {
                1int
            } else {
                0
            })
            &&& after.next == e.next + 1 + fills.len() + (if stopped {
                1int
            } else {
                0
            })
            &&& forall|i: int| 0 <= i < n ==> #[trigger] after.log[i] == e.log[i]
            &&& forall|i: int| n <= i < after.log.len() ==> (#[trigger] after.log[i]).seq_id == e.next + (i - n)
            &&& after.log[n].event matches Event::OrderAccepted { order } && accepted_as(order, signed, now, hash, id, e.next)
            &&& forall|i: int|
                0 <= i < fills.len() ==> (#[trigger] after.log[n + 1 + i]).event == Event::Fill(fills[i])
            &&& stopped ==> after.log[n + 1 + fills.len()].event == (Event::OrderCancelled {
                order_id: id,
                order_hash: hash,
                reason: CancelReason::SelfTradePrevention,
            })
        }),
{
    let order = new_order(signed, now, hash, id, e.next as u64);
    let m = e.run(signed, now, hash, id);
    let events = intake_events(order, m);
    let n = e.log.len() as int;
    assert(after == e.accept(signed, now, hash, id));
    assert(after.log == appended(e.log, e.next, events));
    assert(accepted_as(order, signed, now, hash, id, e.next));
    assert forall|i: int| 0 <= i < m.fills.len() implies (#[trigger] after.log[n + 1 + i]).event == Event::Fill(m.fills[i]) by {
        assert(events[1 + i] == fill_events(m.fills)[i]);
    }
}

/// `order` is what was submitted, accepted as event `seq` at `now` under `id`.
pub open spec fn accepted_as(order: Order, signed: SignedOrder, now: u64, hash: OrderHash, id: OrderId, seq: int) -> bool {
    &&& order.order_id == id
    &&& order.order_hash == hash
    &&& order.client_order_id == signed.client_order_id
    &&& order.market_id == signed.market_id
    &&& order.trader_id == signed.trader_id
    &&& order.trader_pubkey == signed.trader_pubkey
    &&& order.side == signed.side
    &&& order.price_ticks == signed.price_ticks
    &&& order.orig_size_lots == signed.size_lots
    &&& order.filled_size_lots == 0
    &&& order.time_in_force == signed.time_in_force
    &&& order.nonce == signed.nonce
    &&& order.expiry_ts_ms == signed.expiry_ts_ms
    &&& order.status == OrderStatus::Open
    &&& order.created_sequence == seq
    &&& order.last_update_sequence == seq
    &&& order.accepted_at_ms == now
}

/// An acceptance concerns its own market, trader and orders alone: other books, other
/// traders' nonces, other submissions, the markets and all balances stay as they were.
/// The submission is remembered, and its nonce is the trader's last one.
pub proof fn law_acceptance_touches_its_own(
    e: EngineModel,
    signed: SignedOrder,
    now: u64,
    verdict: Result<(), OrderError>,
    hash: OrderHash,
    id: OrderId,
    after: EngineModel,
    answer: OrderResult,
    market: Seq<char>,
    trader: Seq<char>,
    key: (Seq<char>, Seq<char>),
)
    requires
        e.wf(),
        answers(e, signed, now, verdict, hash, id, after, Ok(answer)),
        !answer.is_duplicate,
    ensures
        after.markets == e.markets,
        after.times == e.times,
        after.state.balances == e.state.balances,
        market != signed.market_id.0@ ==> after.books.contains_key(market) == e.books.contains_key(market)
            && after.books[market] == e.books[market],
        after.state.nonces.contains_key(signed.trader_id@),
        after.state.nonces[signed.trader_id@] == signed.nonce,
        trader != signed.trader_id@ ==> after.state.nonces.contains_key(trader) == e.state.nonces.contains_key(trader)
            && after.state.nonces[trader] == e.state.nonces[trader],
        after.accepted.contains_key((signed.trader_id@, signed.client_order_id@)),
        after.accepted[(signed.trader_id@, signed.client_order_id@)] == (IdempotencyRecord {
            original_seq_id: e.next as u64,
            order_id: id,
            order_hash: hash,
            accepted_at_ms: now,
        }),
        key != (signed.trader_id@, signed.client_order_id@) ==> after.accepted.contains_key(key)
            == e.accepted.contains_key(key) && after.accepted[key] == e.accepted[key],
        after.index.contains_key(id.0@) && after.index[id.0@] == signed.market_id.0@,
{
    assert(after == e.accept(signed, now, hash, id));
}

/// What an acceptance books: each fill once under the hash of the new order and once
/// under that of the order it met, and a cancel mark where self-trade prevention stopped
/// the new order. Nothing else is booked or marked.
pub proof fn law_acceptance_books(
    e: EngineModel,
    signed: SignedOrder,
    now: u64,
    verdict: Result<(), OrderError>,
    hash: OrderHash,
    id: OrderId,
    after: EngineModel,
    answer: OrderResult,
    h: Seq<u8>,
)
    requires
        e.wf(),
        e.accept_fits(signed, now, hash, id),
        answers(e, signed, now, verdict, hash, id, after, Ok(answer)),
        !answer.is_duplicate,
    ensures
        amount(after.state.filled, h) == amount(e.state.filled, h) + answer.fills@.fold_left(
            0int,
            |sum: int, fill: Fill|
                sum + (if fill.taker_order_hash.0@ == h {
                    fill.size_lots as int
                } else {
                    0
                }) + (if fill.maker_order_hash.0@ == h {
                    fill.size_lots as int
                } else {
                    0
                }),
        ),
        after.state.cancelled.contains_key(h) && after.state.cancelled[h] <==> (e.state.cancelled.contains_key(h)
            && e.state.cancelled[h]) || (answer.final_status == OrderStatus::CancelledStp && h == hash.0@),
{
    assert(after == e.accept(signed, now, hash, id));
    law_booked_by_fills(e.state.filled, answer.fills@, h);
    assert(after.state.filled == filled_after(e.state.filled, answer.fills@));
}

/// The number of the last change of an order in a book: that of its fill among the
/// events of the acceptance.
proof fn lemma_number_of_fill(order: Order, id: Seq<char>, fills: Seq<Fill>, first: int, k: int)
    requires
        0 <= k < fills.len(),
        fills[k].maker_order_id.key() == id,
        forall|l: int| k < l < fills.len() ==> (#[trigger] fills[l]).maker_order_id.key() != id,
    ensures
        renumbered(order, id, fills, first).last_update_sequence == (first + k) as u64,
    decreases fills.len(),
{
    if k < fills.len() - 1 {
        assert(fills[fills.len() - 1].maker_order_id.key() != id);
        let init = fills.drop_last();
        assert forall|l: int| k < l < init.len() implies (#[trigger] init[l]).maker_order_id.key() != id by {
            assert(fills[l].maker_order_id.key() != id);
        }
        lemma_number_of_fill(order, id, init, first, k);
    }
}

/// What is left of an accepted order. The answer's fills add up to what is filled of it;
/// it is filled exactly when that is its size. Where something is left and nobody
/// stopped it, it rests at the end of the queue of its price; otherwise it is in no
/// queue. Either way it is found as it came out.
pub proof fn law_accepted_order_comes_out(
    e: EngineModel,
    signed: SignedOrder,
    now: u64,
    verdict: Result<(), OrderError>,
    hash: OrderHash,
    id: OrderId,
    after: EngineModel,
    answer: OrderResult,
    price: u64,
)
    requires
        tidy_engine(e),
        answers(e, signed, now, verdict, hash, id, after, Ok(answer)),
        !answer.is_duplicate,
        !e.index.contains_key(id.0@),
        after.next <= u64::MAX,
    ensures
        ({
            let filled = volume(answer.fills@);
            let found = after.find(id.0@)->Some_0;
            let book = after.books[signed.market_id.0@];
            let queue = if signed.side == Side::Buy {
                book.bids[signed.price_ticks]
            } else {
                book.asks[signed.price_ticks]
            };
            &&& after.find(id.0@) is Some
            &&& found.filled_size_lots == filled
            &&& filled <= signed.size_lots
            &&& found.status == answer.final_status
            &&& found.last_update_sequence == after.next - 1
            &&& accepted_as(
                Order {
                    filled_size_lots: 0,
                    status: OrderStatus::Open,
                    last_update_sequence: e.next as u64,
                    ..found
                },
                signed,
                now,
                hash,
                id,
                e.next,
            )
            &&& answer.final_status == OrderStatus::Filled <==> filled == signed.size_lots
            &&& answer.final_status == OrderStatus::Open ==> answer.fills@.len() == 0
            &&& answer.final_status == OrderStatus::PartiallyFilled ==> answer.fills@.len() > 0 && filled
                < signed.size_lots
            &&& answer.final_status != OrderStatus::Cancelled
            &&& resting(found) ==> queue.len() > 0 && queue.last() == id.0@
            &&& !resting(found) ==> !(book.bids.contains_key(price) && book.bids[price].contains(id.0@)) && !(
            book.asks.contains_key(price) && book.asks[price].contains(id.0@))
        }),
{
    let market = signed.market_id.0@;
    let book = e.books[market];
    let seq = e.next as u64;
    let order = new_order(signed, now, hash, id, seq);
    let m = e.run(signed, now, hash, id);
    let key = id.0@;
    assert(after == e.accept(signed, now, hash, id));
    assert(e.markets.contains_key(market) && e.books.contains_key(market));
    law_fields_pass(signed, now);
    assert(tidy(book, market));
    lemma_matched(book, order, seq, now);
    lemma_numbered(m, e.next);
    law_taker_status(book, market, order, seq, now);
    assert(!book.orders.contains_key(key)) by {
        if book.orders.contains_key(key) {
            assert(e.books[market].orders.contains_key(key));
        }
    }
    assert(!m.book.orders.contains_key(key)) by {
        assert(start_of(book, order).book.orders.contains_key(key) <==> m.book.orders.contains_key(key));
    }
    assert(m.taker.order_id == id);
    assert(m.taker.status != OrderStatus::Cancelled) by {
        law_taker_closed_or_left(book, order, seq, now);
    }
    assert(youngest(book.orders, order)) by {
        assert forall|x: Seq<char>| #[trigger] book.orders.contains_key(x) implies Age::before(
            (book.orders[x].created_sequence, x),
            (order.created_sequence, order.order_id.key()),
        ) by {
            assert(e.books[market].orders.contains_key(x));
        }
    }
    law_intake_keeps_tidy(book, market, order, seq, now);
    lemma_numbered_tidy(m, e.next, market);
    let end = after.books[market];
    assert(tidy(end, market));
    law_queues_hold_resting_orders(end, market, price, key);
    law_queues_hold_resting_orders(end, market, signed.price_ticks, key);
}

/// An order that an acceptance filled is found with that much more filled and with the
/// number of that fill as its last change, and every other order of the book as it was.
pub proof fn law_met_order_comes_out(
    e: EngineModel,
    signed: SignedOrder,
    now: u64,
    verdict: Result<(), OrderError>,
    hash: OrderHash,
    id: OrderId,
    after: EngineModel,
    answer: OrderResult,
    x: Seq<char>,
)
    requires
        tidy_engine(e),
        answers(e, signed, now, verdict, hash, id, after, Ok(answer)),
        !answer.is_duplicate,
        !e.index.contains_key(id.0@),
        after.next <= u64::MAX,
        e.find(x) is Some,
        x != id.0@,
    ensures
        ({
            let was = e.find(x)->Some_0;
            let fills = answer.fills@;
            &&& after.find(x) is Some
            &&& (forall|k: int| 0 <= k < fills.len() ==> (#[trigger] fills[k]).maker_order_id.0@ != x) ==> after.find(x)
                == Some(was)
            &&& forall|k: int|
                0 <= k < fills.len() && (#[trigger] fills[k]).maker_order_id.0@ == x ==> {
                    let filled = was.filled_size_lots + fills[k].size_lots;
                    after.find(x) == Some(
                        Order {
                            filled_size_lots: filled as u64,
                            status: if filled == was.orig_size_lots {
                                OrderStatus::Filled
                            } else {
                                OrderStatus::PartiallyFilled
                            },
                            last_update_sequence: (e.next + 1 + k) as u64,
                            ..was
                        },
                    ) && filled <= was.orig_size_lots
                }
        }),
{
    let market = signed.market_id.0@;
    let book = e.books[market];
    let seq = e.next as u64;
    let order = new_order(signed, now, hash, id, seq);
    let m = e.run(signed, now, hash, id);
    let fills = m.fills;
    assert(after == e.accept(signed, now, hash, id));
    assert(e.markets.contains_key(market) && e.books.contains_key(market));
    law_fields_pass(signed, now);
    assert(tidy(book, market));
    lemma_matched(book, order, seq, now);
    lemma_numbered(m, e.next);
    assert(m.taker.order_id == id);
    assert(book.orders.contains_key(x) <==> m.book.orders.contains_key(x));
    assert(after.in_book(x) == e.in_book(x));
    assert forall|k: int| 0 <= k < fills.len() implies book.orders.contains_key((#[trigger] fills[k]).maker_order_id.0@) by {
        law_fill_tells(book, market, order, seq, now, k);
    }
    if book.orders.contains_key(x) {
        assert(e.books[market].orders.contains_key(x));
        assert(e.index.contains_key(x) && e.index[x] == market);
        law_maker_comes_out(book, market, order, seq, now, x);
        lemma_renumbered(m.book.orders[x], x, fills, e.next + 1);
        assert forall|k: int| 0 <= k < fills.len() && (#[trigger] fills[k]).maker_order_id.0@ == x implies renumbered(
            m.book.orders[x],
            x,
            fills,
            e.next + 1,
        ).last_update_sequence == (e.next + 1 + k) as u64 by {
            law_fill_tells(book, market, order, seq, now, k);
            lemma_number_of_fill(m.book.orders[x], x, fills, e.next + 1, k);
        }
    }
}

/// What a cancel is answered: that there is no such order, that it is not the caller's,
/// that it was filled or cancelled before, or the number of the cancel. Only the last
/// changes anything.
pub proof fn law_answer_to_cancel(
    e: EngineModel,
    order_id: OrderId,
    trader: Seq<char>,
    after: EngineModel,
    r: Result<CancelResult, CancelError>,
)
    requires
        cancel_answers(e, order_id, trader, after, r),
    ensures
        ({
            let found = e.find(order_id.0@);
            let order = found->Some_0;
            &&& found is None <==> (r matches Err(CancelError::NotFound(id)) && id == order_id.0)
            &&& found is Some && order.trader_id@ != trader <==> (r matches Err(CancelError::Unauthorized(who)) && who@
                == trader)
            &&& found is Some && order.trader_id@ == trader && (order.status == OrderStatus::Filled || order.status
                == OrderStatus::Cancelled || order.status == OrderStatus::CancelledStp) <==> r == Ok::<
                CancelResult,
                CancelError,
            >(CancelResult { order_id, seq_id: None, was_already_closed: true })
            &&& found is Some && order.trader_id@ == trader && (order.status == OrderStatus::Open || order.status
                == OrderStatus::PartiallyFilled) <==> r == Ok::<CancelResult, CancelError>(
                CancelResult { order_id, seq_id: Some(e.next as u64), was_already_closed: false },
            )
            &&& !(found is Some && order.trader_id@ == trader && (order.status == OrderStatus::Open || order.status
                == OrderStatus::PartiallyFilled)) ==> after == e
        }),
{
}

/// A cancel of a resting order by its trader takes effect: the answer gives its number,
/// the log ends with it, the order is found as cancelled by it and is in no queue, and
/// its hash is marked. Every other order stays as it was and keeps its place.
pub proof fn law_cancel_takes_effect(
    e: EngineModel,
    order_id: OrderId,
    trader: Seq<char>,
    after: EngineModel,
    r: Result<CancelResult, CancelError>,
    market: Seq<char>,
    price: u64,
    other: Seq<char>,
)
    requires
        tidy_engine(e),
        e.next < u64::MAX,
        cancel_answers(e, order_id, trader, after, r),
        e.find(order_id.0@) matches Some(order) && order.trader_id@ == trader && (order.status == OrderStatus::Open
            || order.status == OrderStatus::PartiallyFilled),
    ensures
        ({
            let id = order_id.0@;
            let order = e.find(id)->Some_0;
            let queues = after.books[market];
            let before = e.books[market];
            &&& r == Ok::<CancelResult, CancelError>(
                CancelResult { order_id, seq_id: Some(e.next as u64), was_already_closed: false },
            )
            &&& after.find(id) == Some(
                Order { status: OrderStatus::Cancelled, last_update_sequence: e.next as u64, ..order },
            )
            &&& after.next == e.next + 1
            &&& after.log == e.log.push(
                Entry {
                    seq_id: e.next as u64,
                    event: Event::OrderCancelled {
                        order_id: order.order_id,
                        order_hash: order.order_hash,
                        reason: CancelReason::TraderRequest,
                    },
                },
            )
            &&& after.state.cancelled == e.state.cancelled.insert(order.order_hash.0@, true)
            &&& after.state.filled == e.state.filled && after.state.nonces == e.state.nonces && after.state.balances
                == e.state.balances
            &&& after.markets == e.markets && after.accepted == e.accepted && after.index == e.index && after.closed
                == e.closed && after.times == e.times
            &&& other != id ==> after.find(other) == e.find(other)
            &&& after.books.contains_key(market) == e.books.contains_key(market)
            &&& e.books.contains_key(market) ==> {
                &&& !(queues.bids.contains_key(price) && queues.bids[price].contains(id))
                &&& !(queues.asks.contains_key(price) && queues.asks[price].contains(id))
                &&& other != id ==> (queues.bids.contains_key(price) && queues.bids[price].contains(other)
                    <==> before.bids.contains_key(price) && before.bids[price].contains(other))
                &&& other != id ==> (queues.asks.contains_key(price) && queues.asks[price].contains(other)
                    <==> before.asks.contains_key(price) && before.asks[price].contains(other))
            }
        }),
{
    let id = order_id.0@;
    let order = e.find(id)->Some_0;
    let home = e.index[id];
    assert(e.in_book(id));
    assert(after == e.cancel(home, id, CancelReason::TraderRequest));
    assert(after.log =~= e.log.push(
        Entry {
            seq_id: e.next as u64,
            event: Event::OrderCancelled {
                order_id: order.order_id,
                order_hash: order.order_hash,
                reason: CancelReason::TraderRequest,
            },
        },
    ));
    assert(after.in_book(other) == e.in_book(other));
    if e.books.contains_key(market) {
        let before = e.books[market];
        let queues = after.books[market];
        assert(tidy(before, market));
        if market == home {
            lemma_tidy_closed(before, market, id, cancelled(order, e.next as u64));
        } else {
            assert(!before.orders.contains_key(id)) by {
                if before.orders.contains_key(id) {
                    assert(e.books[market].orders.contains_key(id));
                }
            }
        }
        assert(tidy(queues, market));
        law_queues_hold_resting_orders(queues, market, price, id);
        law_queues_hold_resting_orders(queues, market, price, other);
        law_queues_hold_resting_orders(before, market, price, other);
    }
}

/// A market registration gives the market its configuration and, where it has none, an
/// empty book; it changes nothing else.
pub proof fn law_registration(e: EngineModel, config: MarketConfig, market: Seq<char>)
    ensures
        ({
            let after = e.with_market(config);
            &&& after.markets.contains_key(config.id.0@) && after.markets[config.id.0@] == config
            &&& after.books.contains_key(config.id.0@)
            &&& e.books.contains_key(config.id.0@) ==> after.books[config.id.0@] == e.books[config.id.0@]
            &&& !e.books.contains_key(config.id.0@) ==> after.books[config.id.0@] == (BookModel {
                bids: Map::empty(),
                asks: Map::empty(),
                orders: Map::empty(),
            })
            &&& market != config.id.0@ ==> after.markets.contains_key(market) == e.markets.contains_key(market)
                && after.markets[market] == e.markets[market] && after.books.contains_key(market)
                == e.books.contains_key(market) && after.books[market] == e.books[market]
            &&& after.next == e.next && after.log == e.log && after.accepted == e.accepted && after.state == e.state
                && after.index == e.index && after.closed == e.closed && after.times == e.times
        }),
{
}

/// A submission that is turned down leaves one event, under the next number, that names
/// its trader and its client order id and gives the reason in the words of the answer.
pub proof fn law_refusal_is_logged(
    e: EngineModel,
    signed: SignedOrder,
    now: u64,
    verdict: Result<(), OrderError>,
    hash: OrderHash,
    id: OrderId,
    after: EngineModel,
    why: EngineError,
)
    requires
        answers(e, signed, now, verdict, hash, id, after, Err(why)),
    ensures
        after.next == e.next + 1,
        after.log.len() == e.log.len() + 1,
        forall|i: int| 0 <= i < e.log.len() ==> #[trigger] after.log[i] == e.log[i],
        after.log.last().seq_id == e.next as u64,
        after.log.last().event matches Event::OrderRejected { client_order_id, trader_id, reason } && client_order_id@
            == signed.client_order_id@ && trader_id@ == signed.trader_id@ && reason@ == why.text(),
{
}

/// A new engine has no markets, no books, no orders and no log, and its first event is
/// number 1.
pub proof fn law_new_engine(times: Set<u64>, id: Seq<char>)
    ensures
        ({
            let e = EngineModel::empty(times);
            &&& e.next == 1
            &&& e.log.len() == 0
            &&& !e.markets.contains_key(id) && !e.books.contains_key(id) && e.find(id) is None
            &&& e.accepted == Map::<(Seq<char>, Seq<char>), IdempotencyRecord>::empty()
            &&& !e.state.nonces.contains_key(id) && e.state.filled.dom() == Set::<Seq<u8>>::empty()
                && e.state.cancelled.dom() == Set::<Seq<u8>>::empty()
            &&& e.times == times
        }),
{
}

} // verus!
