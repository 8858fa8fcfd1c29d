//! What holds of every engine, whatever was called on it.
use crate::domain::market::MarketConfig;
use crate::domain::order::{Order, OrderError, OrderHash, OrderId, Side, SignedOrder};
use crate::engine::books::{law_tidy_books_queued, queued, waits};
use crate::engine::matching::{best_first, opposite};
use crate::engine::model::{entries, restores, says_rejected, EngineModel};
use crate::engine::orderbook::{is_best_ask, is_best_bid, queue_at, queue_fits, queue_qty, rows, rows_fit, top, BookModel, Levels, PriceLevel};
use crate::engine::recovery::{concerns_no_order, law_accept_keeps_recoverable, law_cancel_keeps_recoverable, law_market_keeps_recoverable, law_new_engine_recoverable, law_record_keeps_recoverable, law_replay_rebuilds_books, law_restore_rebuilds, recoverable, same_resting, tidy_engine};
use crate::engine::tidy::lemma_best_first;
use crate::engine::{depth_fits, shows_depth};
use crate::events::{CancelReason, Event, SequencedEvent};
use crate::replay::{book_models, walked, ReplayResult};
use vstd::prelude::*;

verus! {

/// What can be called on an engine.
pub enum Call {
    /// A market is registered.
    Register { config: MarketConfig },
    /// An order is submitted. Where it is rejected, `event` says so.
    Submit {
        signed: SignedOrder,
        now: u64,
        verdict: Result<(), OrderError>,
        hash: OrderHash,
        id: OrderId,
        event: Event,
    },
    /// A trader cancels an order.
    Cancel { order: Seq<char>, trader: Seq<char> },
    /// An operator cancels an open order.
    ForceCancel { market: Seq<char>, order: Seq<char> },
    /// An event that concerns no order is put into the log.
    Record { event: Event },
}

/// The call can be made: its numbers and quantities fit in 64 bits, and a new order
/// gets an id that is not used yet.
pub open spec fn can_call(e: EngineModel, call: Call) -> bool {
    match call {
        Call::Register { config } => true,
        Call::Submit { signed, now, verdict, hash, id, event } => {
            &&& e.submit_fits(signed, now, verdict, hash, id)
            &&& e.rejection(signed, now, verdict) matches Some(why) ==> says_rejected(event, signed, why)
            &&& e.admits(signed, now, verdict) ==> !e.index.contains_key(id.key())
        },
        Call::Cancel { order, trader } => e.cancels(order, trader) ==> e.next < u64::MAX,
        Call::ForceCancel { market, order } => e.books.contains_key(market) && e.books[market].is_open(order) && e.next
            < u64::MAX,
        Call::Record { event } => concerns_no_order(event) && e.next < u64::MAX,
    }
}

/// The engine after a call.
pub open spec fn called(e: EngineModel, call: Call) -> EngineModel {
    match call {
        Call::Register { config } => e.with_market(config),
        Call::Submit { signed, now, verdict, hash, id, event } => if e.rejection(signed, now, verdict) is Some {
            e.record(event)
        } else if e.is_duplicate(signed) {
            e
        } else {
            e.accept(signed, now, hash, id)
        },
        Call::Cancel { order, trader } => if e.cancels(order, trader) {
            e.cancel(e.index[order], order, CancelReason::TraderRequest)
        } else {
            e
        },
        Call::ForceCancel { market, order } => e.cancel(market, order, CancelReason::AdminForce),
        Call::Record { event } => e.record(event),
    }
}

/// The engine that `calls` make of a new one, whose clock can tell `times`.
pub open spec fn ran(times: Set<u64>, calls: Seq<Call>) -> EngineModel
    decreases calls.len(),
{
    if calls.len() == 0 {
        EngineModel::empty(times)
    } else {
        called(ran(times, calls.drop_last()), calls.last())
    }
}

/// Each of `calls` can be made in its turn.
pub open spec fn can_run(times: Set<u64>, calls: Seq<Call>) -> bool
    decreases calls.len(),
{
    calls.len() == 0 || (can_run(times, calls.drop_last()) && can_call(ran(times, calls.drop_last()), calls.last()))
}

/// What the call of [`Call::Submit`] makes of an engine is what a submission makes
/// of it.
pub proof fn law_call_is_submission(
    e: EngineModel,
    signed: SignedOrder,
    now: u64,
    verdict: Result<(), OrderError>,
    hash: OrderHash,
    id: OrderId,
    after: EngineModel,
)
    requires
        e.submits(signed, now, verdict, hash, id, after),
    ensures
        exists|event: Event|
            after == #[trigger] called(e, Call::Submit { signed, now, verdict, hash, id, event }) && (e.rejection(
                signed,
                now,
                verdict,
            ) matches Some(why) ==> says_rejected(event, signed, why)),
{
    match e.rejection(signed, now, verdict) {
        Some(why) => {
            let event = choose|event: Event| #[trigger] says_rejected(event, signed, why) && after == e.record(event);
            assert(after == called(e, Call::Submit { signed, now, verdict, hash, id, event }));
        },
        None => {
            let event = arbitrary::<Event>();
            assert(after == called(e, Call::Submit { signed, now, verdict, hash, id, event }));
        },
    }
}

/// Every call keeps an engine tidy and recoverable, and numbers its events without a
/// gap.
pub proof fn law_calls_keep_recoverable(e: EngineModel, call: Call)
    requires
        tidy_engine(e),
        recoverable(e),
        can_call(e, call),
    ensures
        tidy_engine(called(e, call)),
        recoverable(called(e, call)),
        called(e, call).next - called(e, call).log.len() == e.next - e.log.len(),
{
    match call {
        Call::Register { config } => law_market_keeps_recoverable(e, config),
        Call::Submit { signed, now, verdict, hash, id, event } => {
            if e.rejection(signed, now, verdict) is Some {
                law_record_keeps_recoverable(e, event);
            } else if !e.is_duplicate(signed) {
                law_accept_keeps_recoverable(e, signed, now, verdict, hash, id);
            }
        },
        Call::Cancel { order, trader } => {
            if e.cancels(order, trader) {
                assert(e.in_book(order));
                law_cancel_keeps_recoverable(e, e.index[order], order, CancelReason::TraderRequest);
            }
        },
        Call::ForceCancel { market, order } => law_cancel_keeps_recoverable(
            e,
            market,
            order,
            CancelReason::AdminForce,
        ),
        Call::Record { event } => law_record_keeps_recoverable(e, event),
    }
}

/// Every engine is tidy and recoverable, whatever was called on it, and its events
/// are numbered from 1 on.
pub proof fn law_runs_are_recoverable(times: Set<u64>, calls: Seq<Call>)
    requires
        can_run(times, calls),
    ensures
        tidy_engine(ran(times, calls)),
        recoverable(ran(times, calls)),
        ran(times, calls).next == ran(times, calls).log.len() + 1,
        forall|i: int| 0 <= i < ran(times, calls).log.len() ==> (#[trigger] ran(times, calls).log[i]).seq_id == i + 1,
    decreases calls.len(),
{
    if calls.len() == 0 {
        law_new_engine_recoverable(times);
    } else {
        let before = ran(times, calls.drop_last());
        law_runs_are_recoverable(times, calls.drop_last());
        law_calls_keep_recoverable(before, calls.last());
    }
}

/// No book is ever crossed, whatever was called: where a market has a best bid and a
/// best ask, the bid is lower. And the queues of every book hold its open orders and
/// nothing else.
pub proof fn law_runs_do_not_cross(times: Set<u64>, calls: Seq<Call>, market: Seq<char>, bid: u64, ask: u64)
    requires
        can_run(times, calls),
        ran(times, calls).books.contains_key(market),
    ensures
        is_best_bid(ran(times, calls).books[market], Some(bid)) && is_best_ask(
            ran(times, calls).books[market],
            Some(ask),
        ) ==> bid < ask,
        queued(ran(times, calls).books[market]),
{
    law_runs_are_recoverable(times, calls);
    law_tidy_books_queued(ran(times, calls).books[market], market);
}

/// The quantity of a queue depends on its orders alone.
proof fn lemma_same_quantity(a: Map<Seq<char>, Order>, b: Map<Seq<char>, Order>, queue: Seq<Seq<char>>)
    requires
        forall|i: int|
            0 <= i < queue.len() ==> a.contains_key(#[trigger] queue[i]) && b.contains_key(queue[i]) && a[queue[i]]
                == b[queue[i]],
    ensures
        queue_qty(a, queue) == queue_qty(b, queue),
    decreases queue.len(),
{
    if queue.len() > 0 {
        let init = queue.drop_last();
        assert forall|i: int| 0 <= i < init.len() implies a.contains_key(#[trigger] init[i]) && b.contains_key(init[i])
            && a[init[i]] == b[init[i]] by {
            assert(init[i] == queue[i]);
        }
        lemma_same_quantity(a, b, init);
        assert(queue.last() == queue[queue.len() - 1]);
    }
}

/// Two books with the same queues and the same open orders show the same rows.
proof fn lemma_same_rows(a: BookModel, b: BookModel, levels: Levels, prices: Seq<u64>)
    requires
        forall|p: u64, i: int|
            levels.contains_key(p) && 0 <= i < levels[p].len() ==> a.orders.contains_key(#[trigger] levels[p][i])
                && b.orders.contains_key(levels[p][i]) && a.orders[levels[p][i]] == b.orders[levels[p][i]],
        forall|i: int| 0 <= i < prices.len() ==> levels.contains_key(#[trigger] prices[i]),
    ensures
        rows(a.orders, levels, prices) == rows(b.orders, levels, prices),
        forall|i: int|
            0 <= i < prices.len() ==> queue_fits(a.orders, levels[#[trigger] prices[i]]) == queue_fits(
                b.orders,
                levels[prices[i]],
            ),
{
    assert forall|i: int| 0 <= i < prices.len() implies queue_qty(a.orders, levels[#[trigger] prices[i]]) == queue_qty(
        b.orders,
        levels[prices[i]],
    ) && queue_fits(a.orders, levels[prices[i]]) == queue_fits(b.orders, levels[prices[i]]) by {
        let queue = levels[prices[i]];
        assert forall|j: int| 0 <= j < queue.len() implies a.orders.contains_key(#[trigger] queue[j])
            && b.orders.contains_key(queue[j]) && a.orders[queue[j]] == b.orders[queue[j]] by {
            assert(levels[prices[i]][j] == queue[j]);
        }
        lemma_same_quantity(a.orders, b.orders, queue);
        assert(queue_fits(a.orders, queue) == queue_fits(b.orders, queue));
    }
    assert(rows(a.orders, levels, prices) =~= rows(b.orders, levels, prices));
}

/// A book shows the same levels as one that holds its open orders only.
proof fn lemma_same_depth(a: BookModel, b: BookModel, side: Side, depth: usize)
    requires
        queued(a),
        same_resting(a, b),
    ensures
        ({
            let levels = a.levels(opposite(side));
            let prices = top(best_first(a, side), depth);
            &&& best_first(b, side) == best_first(a, side)
            &&& rows(a.orders, levels, prices) == rows(b.orders, levels, prices)
            &&& rows_fit(a.orders, levels, prices) == rows_fit(b.orders, levels, prices)
        }),
{
    let levels = a.levels(opposite(side));
    let all = best_first(a, side);
    let prices = top(all, depth);
    lemma_best_first(a, side);
    assert forall|p: u64, i: int| levels.contains_key(p) && 0 <= i < levels[p].len() implies a.orders.contains_key(
        #[trigger] levels[p][i],
    ) && b.orders.contains_key(levels[p][i]) && a.orders[levels[p][i]] == b.orders[levels[p][i]] by {
        let id = levels[p][i];
        assert(queue_at(levels, p).contains(id));
        assert(waits(a.orders, opposite(side), p, id));
        assert(a.is_open(id));
        assert(b.orders.contains_key(id));
    }
    assert forall|i: int| 0 <= i < prices.len() implies levels.contains_key(#[trigger] prices[i]) by {
        assert(prices[i] == all[i]);
        assert(all.contains(all[i]));
    }
    lemma_same_rows(a, b, levels, prices);
    assert(rows_fit(a.orders, levels, prices) == rows_fit(b.orders, levels, prices)) by {
        if rows_fit(a.orders, levels, prices) {
            assert forall|i: int| 0 <= i < prices.len() implies queue_fits(b.orders, levels[#[trigger] prices[i]]) by {
                assert(queue_fits(a.orders, levels[prices[i]]));
            }
        }
        if rows_fit(b.orders, levels, prices) {
            assert forall|i: int| 0 <= i < prices.len() implies queue_fits(a.orders, levels[#[trigger] prices[i]]) by {
                assert(queue_fits(b.orders, levels[prices[i]]));
            }
        }
    }
}

/// The book of `market` among those that a replay rebuilt; an empty one where there
/// is none.
pub open spec fn rebuilt_book(r: ReplayResult, market: Seq<char>) -> BookModel {
    if book_models(r.books@).contains_key(market) {
        book_models(r.books@)[market]
    } else {
        BookModel::empty()
    }
}

/// Replaying the log of an engine rebuilds it, whatever was called on the engine: the
/// replay succeeds, the checksum of its state is the same, the number of its last
/// event is the length of the log, and for every market the rebuilt book has the same
/// queues with the same open orders, and shows the same levels at every depth.
pub proof fn law_replay_rebuilds_every_run(
    times: Set<u64>,
    calls: Seq<Call>,
    log: Seq<SequencedEvent>,
    r: ReplayResult,
    market: Seq<char>,
    depth: usize,
    bids: Seq<PriceLevel>,
    asks: Seq<PriceLevel>,
)
    requires
        can_run(times, calls),
        entries(log) == ran(times, calls).log,
    ensures
        walked(entries(log)) is Done,
        r.rebuilds(walked(entries(log))->Done_0, log.len()) ==> {
            let e = ran(times, calls);
            &&& r.state@.fingerprint() == e.state.fingerprint()
            &&& r.last_seq_id == log.len()
            &&& r.event_count == log.len()
            &&& e.books.contains_key(market) ==> {
                let book = rebuilt_book(r, market);
                &&& same_resting(e.books[market], book)
                &&& depth_fits(e.books[market], depth) == depth_fits(book, depth)
                &&& shows_depth(e.books[market], depth, bids, asks) == shows_depth(book, depth, bids, asks)
            }
        },
{
    let e = ran(times, calls);
    law_runs_are_recoverable(times, calls);
    let w = walked(e.log)->Done_0;
    if r.rebuilds(w, log.len()) {
        assert(r.state@.fingerprint() == e.state.fingerprint());
        if e.books.contains_key(market) {
            let a = e.books[market];
            let b = rebuilt_book(r, market);
            law_replay_rebuilds_books(e, book_models(r.books@), market);
            law_tidy_books_queued(a, market);
            lemma_same_depth(a, b, Side::Sell, depth);
            lemma_same_depth(a, b, Side::Buy, depth);
            assert(best_first(a, Side::Sell) == a.bid_prices() && best_first(b, Side::Sell) == b.bid_prices());
            assert(best_first(a, Side::Buy) == a.ask_prices() && best_first(b, Side::Buy) == b.ask_prices());
        }
    }
}

/// Restoring an engine from the log of another gives that engine back, whatever was
/// called on it: the same numbers, filled quantities, cancel marks and nonces, the
/// same queues with the same open orders in every market, and the same orders, open
/// and closed.
pub proof fn law_restart_gives_every_run_back(
    times: Set<u64>,
    calls: Seq<Call>,
    fresh: EngineModel,
    log: Seq<SequencedEvent>,
    after: EngineModel,
)
    requires
        can_run(times, calls),
        log.len() > 0,
        entries(log) == ran(times, calls).log,
        fresh.markets == ran(times, calls).markets,
        restores(fresh, log, after, Ok(())),
    ensures
        ({
            let e = ran(times, calls);
            &&& after.next == e.next
            &&& after.log == e.log
            &&& after.index == e.index
            &&& after.state.fingerprint() == e.state.fingerprint()
            &&& forall|m: Seq<char>| #[trigger]
                e.markets.contains_key(m) ==> after.books.contains_key(m) && same_resting(e.books[m], after.books[m])
            &&& forall|id: Seq<char>| #[trigger] after.find(id) == e.find(id)
        }),
{
    law_runs_are_recoverable(times, calls);
    law_restore_rebuilds(ran(times, calls), fresh, log, after);
}

} // verus!
